use vstd::prelude::*;
use crate::ast::tok_views;
use crate::error::{result_view, Error};
use crate::eval::{eval_top, Eval};
use crate::lexer::{lex_from, line_of, Lexer, Span, TokView};
use crate::parser::{parse_error_is, parse_spec, Parser};
use crate::value::{model_wf, VModel, Value};

verus! {

/// The tokens that spans of `s` stand for.
pub open spec fn span_views(s: Seq<char>, spans: Seq<Span>) -> Seq<TokView> {
    spans.map_values(
        |sp: Span| TokView { kind: sp.kind, text: s.subrange(sp.start, sp.end), line: line_of(s, sp.start) },
    )
}

/// The environment a query starts in: one empty scope.
pub open spec fn initial_env() -> Seq<Seq<(Seq<char>, VModel)>> {
    seq![Seq::empty()]
}

/// Runs a whole query: lexing, parsing, evaluation.
pub struct Interpreter {}

impl Interpreter {
    /// The value of `query`: its tokens (`lex_from`), its tree (`parse_spec`),
    /// then its value in a fresh environment (`eval_top`); the first failure
    /// of the three is the error.
    pub fn interpret(query: &str) -> (r: Result<Value, Error>)
        ensures
            match lex_from(query@, 0) {
                Err(f) => r matches Err(Error::Lex { kind, line }) && kind == f.kind,
                Ok(spans) => match parse_spec(span_views(query@, spans)) {
                    Err(f) => r matches Err(e) && parse_error_is(e, span_views(query@, spans), f),
                    Ok(a) => result_view(r) == eval_top(initial_env(), a).0,
                },
            },
            r matches Ok(v) ==> model_wf(v@),
    {
        let lexer = Lexer::new(query);
        let tokens = match lexer.tokenize() {
            Ok(t) => t,
            Err(e) => {
                return Err(e);
            },
        };
        proof {
            match lex_from(query@, 0) {
                Ok(spans) => {
                    assert(tokens@.len() == spans.len());
                    assert forall|k: int| 0 <= k < spans.len() implies tok_views(tokens@)[k] == span_views(query@, spans)[k] by {
                        assert(tokens@[k].from_span(query@, spans[k]));
                    }
                    assert(tok_views(tokens@) =~= span_views(query@, spans));
                },
                Err(_) => {},
            }
        }
        let mut parser = Parser::new(tokens);
        let ast = match parser.parse() {
            Ok(a) => a,
            Err(e) => {
                return Err(e);
            },
        };
        let mut evaler = Eval::new(None);
        evaler.visit(&ast)
    }
}

} // verus!
