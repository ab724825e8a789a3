use vstd::prelude::*;
use crate::ast::{arg_views, ast_views, call_views, tok_views, AModel, Ast, CallModel, OpCall};
use crate::error::{Error, ParseError};
use crate::lexer::{TokView, Token, TokenType};

verus! {

/// The kind of the token at `i`; `Eof` past the end.
pub open spec fn kind_at(t: Seq<TokView>, i: int) -> TokenType {
    if 0 <= i < t.len() {
        t[i].kind
    } else {
        TokenType::Eof
    }
}

pub open spec fn at_end(t: Seq<TokView>, i: int) -> bool {
    kind_at(t, i) == TokenType::Eof
}

/// The token at `i` is of kind `k` (never true at the end).
pub open spec fn is_kind(t: Seq<TokView>, i: int, k: TokenType) -> bool {
    !at_end(t, i) && kind_at(t, i) == k
}

/// The binary operators of each precedence level, from `*` `/` (1) to `or` (6).
pub open spec fn level_op(lv: nat, k: TokenType) -> bool {
    if lv == 1 {
        k == TokenType::Star || k == TokenType::Slash
    } else if lv == 2 {
        k == TokenType::Plus || k == TokenType::Minus
    } else if lv == 3 {
        k == TokenType::Greater || k == TokenType::GreaterEqual || k == TokenType::Lesser || k
            == TokenType::LesserEqual
    } else if lv == 4 {
        k == TokenType::EqualEqual || k == TokenType::BangEqual
    } else if lv == 5 {
        k == TokenType::And
    } else {
        k == TokenType::Or
    }
}

pub const TOP_LEVEL: u8 = 6;

/// Where a parse failed, and the one kind of token required there, if a
/// single kind was.
pub struct PFail {
    pub at: int,
    pub expected: Option<TokenType>,
}

pub open spec fn fail<T>(at: int, expected: Option<TokenType>) -> Result<T, PFail> {
    Err(PFail { at, expected })
}

/// The line reported for index `i`: its token's, or the last token's past the end.
pub open spec fn tok_line(t: Seq<TokView>, i: int) -> usize {
    if 0 <= i < t.len() {
        t[i].line
    } else if t.len() > 0 {
        t[t.len() - 1].line
    } else {
        0
    }
}

/// `e` is the parse error that `f` describes: the kind required, the kind
/// of token found at the failure, and its line.
pub open spec fn parse_error_is(e: Error, t: Seq<TokView>, f: PFail) -> bool {
    e matches Error::Parse(pe) && pe.expected == f.expected && pe.found == kind_at(t, f.at) && pe.line
        == tok_line(t, f.at)
}

/// An expression of precedence level `lv` (0 is `unary`, 6 is `logic_or`)
/// starting at `i`: the tree and the index after it, or where it failed.
pub open spec fn p_level(t: Seq<TokView>, lv: nat, i: int) -> Result<(AModel, int), PFail>
    decreases t.len() - i, 2 * lv + 2,
{
    if lv == 0 {
        p_unary(t, i)
    } else {
        match p_level(t, (lv - 1) as nat, i) {
            Ok((a, j)) => if i <= j <= t.len() {
                p_fold(t, lv, a, j)
            } else {
                fail(j, None)
            },
            Err(f) => Err(f),
        }
    }
}

/// Left-folds `acc (op operand)*` for the operators of level `lv`.
pub open spec fn p_fold(t: Seq<TokView>, lv: nat, acc: AModel, j: int) -> Result<(AModel, int), PFail>
    decreases t.len() - j, 2 * lv + 1,
{
    if lv >= 1 && 0 <= j < t.len() && !at_end(t, j) && level_op(lv, kind_at(t, j)) {
        match p_level(t, (lv - 1) as nat, j + 1) {
            Ok((b, k)) => if j < k <= t.len() {
                p_fold(t, lv, AModel::Binary(Box::new(acc), t[j], Box::new(b)), k)
            } else {
                fail(k, None)
            },
            Err(f) => Err(f),
        }
    } else {
        Ok((acc, j))
    }
}

pub open spec fn p_unary(t: Seq<TokView>, i: int) -> Result<(AModel, int), PFail>
    decreases t.len() - i, 1int,
{
    if 0 <= i < t.len() && is_kind(t, i, TokenType::Minus) {
        match p_unary(t, i + 1) {
            Ok((a, j)) => Ok((AModel::Unary(t[i], Box::new(a)), j)),
            Err(f) => Err(f),
        }
    } else {
        p_primary(t, i)
    }
}

pub open spec fn is_atom_kind(k: TokenType) -> bool {
    k == TokenType::Number || k == TokenType::String || k == TokenType::Bool || k
        == TokenType::Variable || k == TokenType::Identifier
}

pub open spec fn p_primary(t: Seq<TokView>, i: int) -> Result<(AModel, int), PFail>
    decreases t.len() - i, 0int,
{
    if i < 0 || i >= t.len() || at_end(t, i) {
        fail(i, None)
    } else if is_atom_kind(kind_at(t, i)) {
        Ok((AModel::Atom(t[i]), i + 1))
    } else if kind_at(t, i) == TokenType::LeftParen {
        match p_level(t, TOP_LEVEL as nat, i + 1) {
            Ok((e, j)) => if i < j <= t.len() {
                if is_kind(t, j, TokenType::RightParen) {
                    Ok((e, j + 1))
                } else {
                    fail(j, Some(TokenType::RightParen))
                }
            } else {
                fail(j, None)
            },
            Err(f) => Err(f),
        }
    } else if kind_at(t, i) == TokenType::ListBegin {
        p_list(t, i + 1, Seq::empty())
    } else if kind_at(t, i) == TokenType::RecordBegin {
        p_record(t, i + 1, Seq::empty(), Seq::empty())
    } else {
        fail(i, None)
    }
}

/// The rest of a list literal after the elements `acc`.
pub open spec fn p_list(t: Seq<TokView>, j: int, acc: Seq<AModel>) -> Result<(AModel, int), PFail>
    decreases t.len() - j, 15int,
{
    if j < 0 || j > t.len() {
        fail(j, None)
    } else if is_kind(t, j, TokenType::ListEnd) {
        Ok((AModel::List(acc), j + 1))
    } else {
        match p_level(t, TOP_LEVEL as nat, j) {
            Ok((e, k)) => if j < k <= t.len() {
                if is_kind(t, k, TokenType::Comma) {
                    p_list(t, k + 1, acc.push(e))
                } else if is_kind(t, k, TokenType::ListEnd) {
                    Ok((AModel::List(acc.push(e)), k + 1))
                } else {
                    fail(k, Some(TokenType::ListEnd))
                }
            } else {
                fail(k, None)
            },
            Err(f) => Err(f),
        }
    }
}

/// The rest of a record literal after the fields `names` = `vals`.
pub open spec fn p_record(t: Seq<TokView>, j: int, names: Seq<TokView>, vals: Seq<AModel>) -> Result<
    (AModel, int),
    PFail,
>
    decreases t.len() - j, 15int,
{
    if j < 0 || j > t.len() {
        fail(j, None)
    } else if is_kind(t, j, TokenType::RecordEnd) {
        Ok((AModel::Record(names, vals), j + 1))
    } else if !is_kind(t, j, TokenType::Identifier) {
        fail(j, Some(TokenType::Identifier))
    } else if !is_kind(t, j + 1, TokenType::Equal) {
        fail(j + 1, Some(TokenType::Equal))
    } else {
        match p_level(t, TOP_LEVEL as nat, j + 2) {
            Ok((e, k)) => if j < k <= t.len() {
                if is_kind(t, k, TokenType::Comma) {
                    p_record(t, k + 1, names.push(t[j]), vals.push(e))
                } else if is_kind(t, k, TokenType::RecordEnd) {
                    Ok((AModel::Record(names.push(t[j]), vals.push(e)), k + 1))
                } else {
                    fail(k, Some(TokenType::RecordEnd))
                }
            } else {
                fail(k, None)
            },
            Err(f) => Err(f),
        }
    }
}

/// The rest of an argument list `(name = expression, ...)` after `args`.
pub open spec fn p_args(t: Seq<TokView>, j: int, path: Seq<TokView>, args: Seq<(TokView, AModel)>) -> Result<
    (CallModel, int),
    PFail,
>
    decreases t.len() - j, 15int,
{
    if j < 0 || j > t.len() {
        fail(j, None)
    } else if is_kind(t, j, TokenType::RightParen) {
        Ok((CallModel { path, args }, j + 1))
    } else if !is_kind(t, j, TokenType::Identifier) {
        fail(j, Some(TokenType::Identifier))
    } else if !is_kind(t, j + 1, TokenType::Equal) {
        fail(j + 1, Some(TokenType::Equal))
    } else {
        match p_level(t, TOP_LEVEL as nat, j + 2) {
            Ok((e, k)) => if j < k <= t.len() {
                if is_kind(t, k, TokenType::Comma) {
                    p_args(t, k + 1, path, args.push((t[j], e)))
                } else if is_kind(t, k, TokenType::RightParen) {
                    Ok((CallModel { path, args: args.push((t[j], e)) }, k + 1))
                } else {
                    fail(k, Some(TokenType::RightParen))
                }
            } else {
                fail(k, None)
            },
            Err(f) => Err(f),
        }
    }
}

/// The rest of a dotted operator path after `path`, then its arguments.
pub open spec fn p_path(t: Seq<TokView>, j: int, path: Seq<TokView>) -> Result<(CallModel, int), PFail>
    decreases t.len() - j, 16int,
{
    if j < 0 || j > t.len() {
        fail(j, None)
    } else if is_kind(t, j, TokenType::Dot) {
        if is_kind(t, j + 1, TokenType::Identifier) {
            p_path(t, j + 2, path.push(t[j + 1]))
        } else {
            fail(j + 1, Some(TokenType::Identifier))
        }
    } else if is_kind(t, j, TokenType::LeftParen) {
        p_args(t, j + 1, path, Seq::empty())
    } else {
        fail(j, Some(TokenType::LeftParen))
    }
}

pub open spec fn p_call(t: Seq<TokView>, i: int) -> Result<(CallModel, int), PFail>
    decreases t.len() - i, 17int,
{
    if 0 <= i < t.len() && is_kind(t, i, TokenType::Identifier) {
        p_path(t, i + 1, seq![t[i]])
    } else {
        fail(i, Some(TokenType::Identifier))
    }
}

/// The operator calls `| call` after `root` and the calls before.
pub open spec fn p_calls(t: Seq<TokView>, j: int, root: AModel, calls: Seq<CallModel>) -> Result<
    (AModel, int),
    PFail,
>
    decreases t.len() - j, 18int,
{
    if 0 <= j < t.len() && is_kind(t, j, TokenType::Pipe) {
        match p_call(t, j + 1) {
            Ok((c, k)) => if j < k <= t.len() {
                p_calls(t, k, root, calls.push(c))
            } else {
                fail(k, None)
            },
            Err(f) => Err(f),
        }
    } else {
        Ok((AModel::OpExp(Box::new(root), calls), j))
    }
}

pub open spec fn p_opexp(t: Seq<TokView>, i: int) -> Result<(AModel, int), PFail>
    decreases t.len() - i, 19int,
{
    match p_level(t, TOP_LEVEL as nat, i) {
        Ok((e, j)) => if i <= j <= t.len() {
            p_calls(t, j, e, Seq::empty())
        } else {
            fail(j, None)
        },
        Err(f) => Err(f),
    }
}

/// A statement: `name = op_expression`, or an op_expression alone.
pub open spec fn p_statement(t: Seq<TokView>, i: int) -> Result<(AModel, int), PFail>
    decreases t.len() - i, 20int,
{
    if 0 <= i && i + 1 < t.len() && is_kind(t, i, TokenType::Identifier) && is_kind(
        t,
        i + 1,
        TokenType::Equal,
    ) {
        match p_opexp(t, i + 2) {
            Ok((e, j)) => Ok((AModel::Statement(Some(t[i]), Box::new(e)), j)),
            Err(f) => Err(f),
        }
    } else {
        match p_opexp(t, i) {
            Ok((e, j)) => Ok((AModel::Statement(None, Box::new(e)), j)),
            Err(f) => Err(f),
        }
    }
}

/// Statements separated by `;` after `acc`, with an optional final `;`.
pub open spec fn p_statements(t: Seq<TokView>, i: int, acc: Seq<AModel>) -> Result<(AModel, int), PFail>
    decreases t.len() - i, 21int,
{
    match p_statement(t, i) {
        Ok((s, j)) => if i <= j <= t.len() {
            if is_kind(t, j, TokenType::Semicolon) {
                if at_end(t, j + 1) {
                    Ok((AModel::Query(acc.push(s)), j + 1))
                } else {
                    p_statements(t, j + 1, acc.push(s))
                }
            } else {
                Ok((AModel::Query(acc.push(s)), j))
            }
        } else {
            fail(j, None)
        },
        Err(f) => Err(f),
    }
}

/// The tree of a whole query, which must use every token before the end;
/// or where parsing failed.
pub open spec fn parse_spec(t: Seq<TokView>) -> Result<AModel, PFail> {
    match p_statements(t, 0, Seq::empty()) {
        Ok((q, j)) => if at_end(t, j) {
            Ok(q)
        } else {
            fail(j, Some(TokenType::Eof))
        },
        Err(f) => Err(f),
    }
}

pub fn is_level_op(lv: u8, k: TokenType) -> (r: bool)
    ensures
        r == level_op(lv as nat, k),
{
    if lv == 1 {
        k == TokenType::Star || k == TokenType::Slash
    } else if lv == 2 {
        k == TokenType::Plus || k == TokenType::Minus
    } else if lv == 3 {
        k == TokenType::Greater || k == TokenType::GreaterEqual || k == TokenType::Lesser || k
            == TokenType::LesserEqual
    } else if lv == 4 {
        k == TokenType::EqualEqual || k == TokenType::BangEqual
    } else if lv == 5 {
        k == TokenType::And
    } else {
        k == TokenType::Or
    }
}

/// A recursive-descent parser over a token sequence.
pub struct Parser {
    tokens: Vec<Token>,
    current: usize,
}

impl Parser {
    /// The tokens being parsed.
    pub closed spec fn toks(&self) -> Seq<TokView> {
        tok_views(self.tokens@)
    }

    /// The index of the next token.
    pub closed spec fn pos(&self) -> int {
        self.current as int
    }

    pub closed spec fn wf(&self) -> bool {
        self.current <= self.tokens@.len()
    }

    pub fn new(tokens: Vec<Token>) -> (r: Parser)
        ensures
            r.wf(),
            r.toks() == tok_views(tokens@),
            r.pos() == 0,
    {
        Parser { tokens, current: 0 }
    }

    fn peek(&self) -> (r: TokenType)
        ensures
            r == kind_at(self.toks(), self.pos()),
    {
        if self.current < self.tokens.len() {
            self.tokens[self.current].token_type
        } else {
            TokenType::Eof
        }
    }

    fn peek_next(&self) -> (r: TokenType)
        ensures
            r == kind_at(self.toks(), self.pos() + 1),
    {
        if self.current < self.tokens.len() && self.current + 1 < self.tokens.len() {
            self.tokens[self.current + 1].token_type
        } else {
            TokenType::Eof
        }
    }

    fn done(&self) -> (r: bool)
        ensures
            r == at_end(self.toks(), self.pos()),
    {
        self.peek() == TokenType::Eof
    }

    fn check(&self, k: TokenType) -> (r: bool)
        ensures
            r == is_kind(self.toks(), self.pos(), k),
    {
        !self.done() && self.peek() == k
    }

    fn check_next(&self, k: TokenType) -> (r: bool)
        ensures
            r == is_kind(self.toks(), self.pos() + 1, k),
    {
        let n = self.peek_next();
        n != TokenType::Eof && n == k
    }

    fn advance(&mut self)
        requires
            old(self).wf(),
        ensures
            final(self).wf(),
            final(self).toks() == old(self).toks(),
            !at_end(old(self).toks(), old(self).pos()) ==> final(self).pos() == old(self).pos() + 1,
            at_end(old(self).toks(), old(self).pos()) ==> final(self).pos() == old(self).pos(),
    {
        proof {
            assert(self.toks().len() == self.tokens@.len());
            if self.current >= self.tokens@.len() {
                assert(at_end(self.toks(), self.pos()));
            }
        }
        if self.current < self.tokens.len() && !self.done() {
            self.current = self.current + 1;
        }
    }

    fn previous(&self) -> (r: Token)
        requires
            1 <= self.pos() <= self.toks().len(),
        ensures
            r@ == self.toks()[self.pos() - 1],
    {
        self.tokens[self.current - 1].clone()
    }

    /// Consumes the next token if it is of one of the kinds.
    fn matches(&mut self, kinds: &[TokenType]) -> (r: bool)
        requires
            old(self).wf(),
        ensures
            final(self).wf(),
            final(self).toks() == old(self).toks(),
            r == (!at_end(old(self).toks(), old(self).pos()) && kinds@.contains(
                kind_at(old(self).toks(), old(self).pos()),
            )),
            r ==> final(self).pos() == old(self).pos() + 1,
            !r ==> final(self).pos() == old(self).pos(),
    {
        let mut i: usize = 0;
        while i < kinds.len()
            invariant
                self == old(self),
                i <= kinds@.len(),
                forall|x: int| 0 <= x < i ==> !is_kind(self.toks(), self.pos(), #[trigger] kinds@[x]),
            decreases kinds@.len() - i,
        {
            if self.check(kinds[i]) {
                self.advance();
                return true;
            }
            i += 1;
        }
        proof {
            if !at_end(self.toks(), self.pos()) && kinds@.contains(kind_at(self.toks(), self.pos())) {
                let x = choose|x: int| 0 <= x < kinds@.len() && kinds@[x] == kind_at(self.toks(), self.pos());
                assert(is_kind(self.toks(), self.pos(), kinds@[x]));
            }
        }
        false
    }

    fn error(&self, expected: Option<TokenType>) -> (r: Error)
        ensures
            parse_error_is(r, self.toks(), PFail { at: self.pos(), expected }),
    {
        let line = if self.current < self.tokens.len() {
            self.tokens[self.current].linenum
        } else if self.tokens.len() > 0 {
            self.tokens[self.tokens.len() - 1].linenum
        } else {
            0
        };
        Error::Parse(ParseError { line, expected, found: self.peek() })
    }

    /// Consumes the next token if it is of kind `k`; a parse error otherwise.
    fn consume(&mut self, k: TokenType) -> (r: Result<Token, Error>)
        requires
            old(self).wf(),
        ensures
            final(self).wf(),
            final(self).toks() == old(self).toks(),
            is_kind(old(self).toks(), old(self).pos(), k) ==> (r matches Ok(t) && t@ == old(
                self,
            ).toks()[old(self).pos()] && final(self).pos() == old(self).pos() + 1),
            !is_kind(old(self).toks(), old(self).pos(), k) ==> (r matches Err(e) && parse_error_is(
                e,
                old(self).toks(),
                PFail { at: old(self).pos(), expected: Some(k) },
            ) && final(self).pos() == old(self).pos()),
    {
        if self.check(k) {
            self.advance();
            Ok(self.previous())
        } else {
            Err(self.error(Some(k)))
        }
    }

    fn identifier(&mut self) -> (r: Result<Token, Error>)
        requires
            old(self).wf(),
        ensures
            final(self).wf(),
            final(self).toks() == old(self).toks(),
            is_kind(old(self).toks(), old(self).pos(), TokenType::Identifier) ==> (r matches Ok(t)
                && t@ == old(self).toks()[old(self).pos()] && final(self).pos() == old(self).pos()
                + 1),
            !is_kind(old(self).toks(), old(self).pos(), TokenType::Identifier) ==> (r matches Err(
                e,
            ) && parse_error_is(
                e,
                old(self).toks(),
                PFail { at: old(self).pos(), expected: Some(TokenType::Identifier) },
            ) && final(self).pos() == old(self).pos()),
    {
        self.consume(TokenType::Identifier)
    }

    /// Parses the whole token sequence as a query.
    pub fn parse(&mut self) -> (r: Result<Ast, Error>)
        requires
            old(self).wf(),
        ensures
            final(self).wf(),
            old(self).pos() == 0 ==> match parse_spec(old(self).toks()) {
                Ok(q) => r matches Ok(a) && a@ == q,
                Err(f) => r matches Err(e) && parse_error_is(e, old(self).toks(), f),
            },
    {
        let q = self.query();
        match q {
            Ok(a) => {
                if self.done() {
                    Ok(a)
                } else {
                    Err(self.error(Some(TokenType::Eof)))
                }
            },
            Err(e) => Err(e),
        }
    }

    fn query(&mut self) -> (r: Result<Ast, Error>)
        requires
            old(self).wf(),
        ensures
            final(self).wf(),
            final(self).toks() == old(self).toks(),
            match p_statements(old(self).toks(), old(self).pos(), Seq::empty()) {
                Ok((m, j)) => r matches Ok(a) && a@ == m && final(self).pos() == j,
                Err(f) => r matches Err(e) && parse_error_is(e, old(self).toks(), f),
            },
        decreases old(self).tokens@.len() - old(self).current, 21int,
    {
        let ghost t = self.toks();
        let ghost start = self.pos();
        let mut stmts: Vec<Ast> = Vec::new();
        loop
            invariant
                self.wf(),
                self.toks() == t,
                self.pos() >= start,
                start == old(self).pos(),
                t == old(self).toks(),
                p_statements(t, self.pos(), ast_views(stmts@)) == p_statements(t, start, Seq::empty()),
            decreases t.len() - self.pos(),
        {
            let ghost i = self.pos();
            let ghost acc = ast_views(stmts@);
            let s = match self.statement() {
                Ok(s) => s,
                Err(e) => {
                    return Err(e);
                },
            };
            let ghost before = stmts@;
            stmts.push(s);
            proof {
                assert(stmts@.drop_last() =~= before);
                assert(ast_views(stmts@) == acc.push(s@));
            }
            if self.check(TokenType::Semicolon) {
                self.advance();
                if self.done() {
                    return Ok(Ast::Query(stmts));
                }
            } else {
                return Ok(Ast::Query(stmts));
            }
        }
    }

    fn statement(&mut self) -> (r: Result<Ast, Error>)
        requires
            old(self).wf(),
        ensures
            final(self).wf(),
            final(self).toks() == old(self).toks(),
            final(self).pos() >= old(self).pos(),
            match p_statement(old(self).toks(), old(self).pos()) {
                Ok((m, j)) => r matches Ok(a) && a@ == m && final(self).pos() == j,
                Err(f) => r matches Err(e) && parse_error_is(e, old(self).toks(), f),
            },
        decreases old(self).tokens@.len() - old(self).current, 20int,
    {
        if self.check(TokenType::Identifier) && self.check_next(TokenType::Equal) {
            self.advance();
            let name = self.previous();
            self.advance();
            match self.op_expression() {
                Ok(body) => Ok(Ast::Statement(Some(name), Box::new(body))),
                Err(e) => Err(e),
            }
        } else {
            match self.op_expression() {
                Ok(body) => Ok(Ast::Statement(None, Box::new(body))),
                Err(e) => Err(e),
            }
        }
    }

    fn op_expression(&mut self) -> (r: Result<Ast, Error>)
        requires
            old(self).wf(),
        ensures
            final(self).wf(),
            final(self).toks() == old(self).toks(),
            final(self).pos() >= old(self).pos(),
            match p_opexp(old(self).toks(), old(self).pos()) {
                Ok((m, j)) => r matches Ok(a) && a@ == m && final(self).pos() == j,
                Err(f) => r matches Err(e) && parse_error_is(e, old(self).toks(), f),
            },
        decreases old(self).tokens@.len() - old(self).current, 19int,
    {
        let ghost t = self.toks();
        let ghost start = self.pos();
        let e = match self.expression() {
            Ok(e) => e,
            Err(err) => {
                return Err(err);
            },
        };
        let mut calls: Vec<OpCall> = Vec::new();
        proof {
            assert(call_views(calls@) =~= Seq::<CallModel>::empty());
        }
        while self.check(TokenType::Pipe)
            invariant
                self.wf(),
                self.toks() == t,
                self.pos() >= start,
                start == old(self).pos(),
                t == old(self).toks(),
                p_calls(t, self.pos(), e@, call_views(calls@)) == p_opexp(t, start),
            decreases t.len() - self.pos(),
        {
            self.advance();
            let c = match self.opcall() {
                Ok(c) => c,
                Err(err) => {
                    return Err(err);
                },
            };
            let ghost before = calls@;
            calls.push(c);
            proof {
                assert(calls@.drop_last() =~= before);
            }
        }
        Ok(Ast::OpExp(Box::new(e), calls))
    }

    fn opcall(&mut self) -> (r: Result<OpCall, Error>)
        requires
            old(self).wf(),
        ensures
            final(self).wf(),
            final(self).toks() == old(self).toks(),
            final(self).pos() >= old(self).pos(),
            match p_call(old(self).toks(), old(self).pos()) {
                Ok((m, j)) => r matches Ok(c) && c@ == m && final(self).pos() == j,
                Err(f) => r matches Err(e) && parse_error_is(e, old(self).toks(), f),
            },
        decreases old(self).tokens@.len() - old(self).current, 18int,
    {
        let ghost t = self.toks();
        let ghost start = self.pos();
        let first = match self.identifier() {
            Ok(x) => x,
            Err(e) => {
                return Err(e);
            },
        };
        let mut path: Vec<Token> = Vec::new();
        path.push(first);
        proof {
            assert(tok_views(path@) =~= seq![t[start]]);
        }
        loop
            invariant_except_break
                p_path(t, self.pos(), tok_views(path@)) == p_call(t, start),
            invariant
                self.wf(),
                self.toks() == t,
                self.pos() > start,
                start == old(self).pos(),
                t == old(self).toks(),
            ensures
                self.wf(),
                self.toks() == t,
                self.pos() > start,
                p_args(t, self.pos(), tok_views(path@), Seq::empty()) == p_call(t, start),
            decreases t.len() - self.pos(),
        {
            if self.check(TokenType::Dot) {
                self.advance();
                let id = match self.identifier() {
                    Ok(x) => x,
                    Err(e) => {
                        return Err(e);
                    },
                };
                let ghost before = path@;
                path.push(id);
                proof {
                    assert(tok_views(path@) =~= tok_views(before).push(id@));
                }
            } else if self.check(TokenType::LeftParen) {
                self.advance();
                break;
            } else {
                return Err(self.error(Some(TokenType::LeftParen)));
            }
        }
        let mut args: Vec<(Token, Ast)> = Vec::new();
        proof {
            assert(arg_views(args@) =~= Seq::<(TokView, AModel)>::empty());
        }
        loop
            invariant
                self.wf(),
                self.toks() == t,
                self.pos() > start,
                start == old(self).pos(),
                t == old(self).toks(),
                p_args(t, self.pos(), tok_views(path@), arg_views(args@)) == p_call(
                    t,
                    start,
                ),
            decreases t.len() - self.pos(),
        {
            if self.check(TokenType::RightParen) {
                self.advance();
                return Ok(OpCall { path, args });
            }
            let ghost j = self.pos();
            let name = match self.identifier() {
                Ok(x) => x,
                Err(e) => {
                    return Err(e);
                },
            };
            match self.consume(TokenType::Equal) {
                Ok(_) => {},
                Err(e) => {
                    return Err(e);
                },
            }
            let e = match self.expression() {
                Ok(e) => e,
                Err(err) => {
                    return Err(err);
                },
            };
            let ghost before = args@;
            args.push((name, e));
            proof {
                assert(args@.drop_last() =~= before);
            }
            if self.check(TokenType::Comma) {
                self.advance();
            } else if self.check(TokenType::RightParen) {
                self.advance();
                return Ok(OpCall { path, args });
            } else {
                return Err(self.error(Some(TokenType::RightParen)));
            }
        }
    }

    fn expression(&mut self) -> (r: Result<Ast, Error>)
        requires
            old(self).wf(),
        ensures
            final(self).wf(),
            final(self).toks() == old(self).toks(),
            final(self).pos() >= old(self).pos(),
            r is Ok ==> final(self).pos() > old(self).pos(),
            match p_level(old(self).toks(), TOP_LEVEL as nat, old(self).pos()) {
                Ok((m, j)) => r matches Ok(a) && a@ == m && final(self).pos() == j,
                Err(f) => r matches Err(e) && parse_error_is(e, old(self).toks(), f),
            },
        decreases old(self).tokens@.len() - old(self).current, 15int,
    {
        self.level(TOP_LEVEL)
    }

    /// An expression at precedence level `lv`; see `p_level`.
    fn level(&mut self, lv: u8) -> (r: Result<Ast, Error>)
        requires
            old(self).wf(),
            lv <= 6,
        ensures
            final(self).wf(),
            final(self).toks() == old(self).toks(),
            final(self).pos() >= old(self).pos(),
            r is Ok ==> final(self).pos() > old(self).pos(),
            match p_level(old(self).toks(), lv as nat, old(self).pos()) {
                Ok((m, j)) => r matches Ok(a) && a@ == m && final(self).pos() == j,
                Err(f) => r matches Err(e) && parse_error_is(e, old(self).toks(), f),
            },
        decreases old(self).tokens@.len() - old(self).current, 2 * lv + 2,
    {
        if lv == 0 {
            self.unary()
        } else {
            match self.level(lv - 1) {
                Ok(left) => self.fold(lv, left),
                Err(e) => Err(e),
            }
        }
    }

    /// Left-folds the operators of level `lv` onto `left`.
    fn fold(&mut self, lv: u8, left: Ast) -> (r: Result<Ast, Error>)
        requires
            old(self).wf(),
            1 <= lv <= 6,
        ensures
            final(self).wf(),
            final(self).toks() == old(self).toks(),
            final(self).pos() >= old(self).pos(),
            match p_fold(old(self).toks(), lv as nat, left@, old(self).pos()) {
                Ok((m, j)) => r matches Ok(a) && a@ == m && final(self).pos() == j,
                Err(f) => r matches Err(e) && parse_error_is(e, old(self).toks(), f),
            },
        decreases old(self).tokens@.len() - old(self).current, 2 * lv + 1,
    {
        let ghost t = self.toks();
        let ghost start = self.pos();
        let mut acc = left;
        while !self.done() && is_level_op(lv, self.peek())
            invariant
                self.wf(),
                self.toks() == t,
                self.pos() >= start,
                start == old(self).pos(),
                t == old(self).toks(),
                1 <= lv <= 6,
                p_fold(t, lv as nat, acc@, self.pos()) == p_fold(t, lv as nat, left@, start),
            decreases t.len() - self.pos(),
        {
            self.advance();
            let op = self.previous();
            let right = match self.level(lv - 1) {
                Ok(a) => a,
                Err(e) => {
                    return Err(e);
                },
            };
            acc = Ast::Binary { left: Box::new(acc), op, right: Box::new(right) };
        }
        Ok(acc)
    }

    fn unary(&mut self) -> (r: Result<Ast, Error>)
        requires
            old(self).wf(),
        ensures
            final(self).wf(),
            final(self).toks() == old(self).toks(),
            final(self).pos() >= old(self).pos(),
            r is Ok ==> final(self).pos() > old(self).pos(),
            match p_unary(old(self).toks(), old(self).pos()) {
                Ok((m, j)) => r matches Ok(a) && a@ == m && final(self).pos() == j,
                Err(f) => r matches Err(e) && parse_error_is(e, old(self).toks(), f),
            },
        decreases old(self).tokens@.len() - old(self).current, 1int,
    {
        if self.check(TokenType::Minus) {
            self.advance();
            let op = self.previous();
            match self.unary() {
                Ok(a) => Ok(Ast::Unary(op, Box::new(a))),
                Err(e) => Err(e),
            }
        } else {
            self.primary()
        }
    }

    fn primary(&mut self) -> (r: Result<Ast, Error>)
        requires
            old(self).wf(),
        ensures
            final(self).wf(),
            final(self).toks() == old(self).toks(),
            final(self).pos() >= old(self).pos(),
            r is Ok ==> final(self).pos() > old(self).pos(),
            match p_primary(old(self).toks(), old(self).pos()) {
                Ok((m, j)) => r matches Ok(a) && a@ == m && final(self).pos() == j,
                Err(f) => r matches Err(e) && parse_error_is(e, old(self).toks(), f),
            },
        decreases old(self).tokens@.len() - old(self).current, 0int,
    {
        if self.done() {
            return Err(self.error(None));
        }
        let k = self.peek();
        if k == TokenType::Number || k == TokenType::String || k == TokenType::Bool || k
            == TokenType::Variable || k == TokenType::Identifier {
            self.advance();
            Ok(Ast::Atom(self.previous()))
        } else if k == TokenType::LeftParen {
            self.advance();
            let e = match self.expression() {
                Ok(e) => e,
                Err(err) => {
                    return Err(err);
                },
            };
            match self.consume(TokenType::RightParen) {
                Ok(_) => Ok(e),
                Err(err) => Err(err),
            }
        } else if k == TokenType::ListBegin {
            self.advance();
            self.list()
        } else if k == TokenType::RecordBegin {
            self.advance();
            self.record()
        } else {
            Err(self.error(None))
        }
    }

    /// The rest of a list literal, after its `[`.
    fn list(&mut self) -> (r: Result<Ast, Error>)
        requires
            old(self).wf(),
        ensures
            final(self).wf(),
            final(self).toks() == old(self).toks(),
            final(self).pos() >= old(self).pos(),
            r is Ok ==> final(self).pos() > old(self).pos(),
            match p_list(old(self).toks(), old(self).pos(), Seq::empty()) {
                Ok((m, j)) => r matches Ok(a) && a@ == m && final(self).pos() == j,
                Err(f) => r matches Err(e) && parse_error_is(e, old(self).toks(), f),
            },
        decreases old(self).tokens@.len() - old(self).current, 16int,
    {
        let ghost t = self.toks();
        let ghost start = self.pos();
        let mut items: Vec<Ast> = Vec::new();
        proof {
            assert(ast_views(items@) =~= Seq::<AModel>::empty());
        }
        loop
            invariant
                self.wf(),
                self.toks() == t,
                self.pos() >= start,
                start == old(self).pos(),
                t == old(self).toks(),
                p_list(t, self.pos(), ast_views(items@)) == p_list(t, start, Seq::empty()),
            decreases t.len() - self.pos(),
        {
            if self.check(TokenType::ListEnd) {
                self.advance();
                return Ok(Ast::List(items));
            }
            let e = match self.expression() {
                Ok(e) => e,
                Err(err) => {
                    return Err(err);
                },
            };
            let ghost before = items@;
            items.push(e);
            proof {
                assert(items@.drop_last() =~= before);
            }
            if self.check(TokenType::Comma) {
                self.advance();
            } else if self.check(TokenType::ListEnd) {
                self.advance();
                return Ok(Ast::List(items));
            } else {
                return Err(self.error(Some(TokenType::ListEnd)));
            }
        }
    }

    /// The rest of a record literal, after its `{`.
    fn record(&mut self) -> (r: Result<Ast, Error>)
        requires
            old(self).wf(),
        ensures
            final(self).wf(),
            final(self).toks() == old(self).toks(),
            final(self).pos() >= old(self).pos(),
            r is Ok ==> final(self).pos() > old(self).pos(),
            match p_record(old(self).toks(), old(self).pos(), Seq::empty(), Seq::empty()) {
                Ok((m, j)) => r matches Ok(a) && a@ == m && final(self).pos() == j,
                Err(f) => r matches Err(e) && parse_error_is(e, old(self).toks(), f),
            },
        decreases old(self).tokens@.len() - old(self).current, 16int,
    {
        let ghost t = self.toks();
        let ghost start = self.pos();
        let mut names: Vec<Token> = Vec::new();
        let mut values: Vec<Ast> = Vec::new();
        proof {
            assert(ast_views(values@) =~= Seq::<AModel>::empty());
            assert(tok_views(names@) =~= Seq::<TokView>::empty());
        }
        loop
            invariant
                self.wf(),
                self.toks() == t,
                self.pos() >= start,
                start == old(self).pos(),
                t == old(self).toks(),
                p_record(t, self.pos(), tok_views(names@), ast_views(values@))
                    == p_record(t, start, Seq::empty(), Seq::empty()),
            decreases t.len() - self.pos(),
        {
            if self.check(TokenType::RecordEnd) {
                self.advance();
                return Ok(Ast::Record(names, values));
            }
            let name = match self.identifier() {
                Ok(x) => x,
                Err(e) => {
                    return Err(e);
                },
            };
            match self.consume(TokenType::Equal) {
                Ok(_) => {},
                Err(e) => {
                    return Err(e);
                },
            }
            let e = match self.expression() {
                Ok(e) => e,
                Err(err) => {
                    return Err(err);
                },
            };
            let ghost before_n = names@;
            let ghost before_v = values@;
            names.push(name);
            values.push(e);
            proof {
                assert(values@.drop_last() =~= before_v);
                assert(tok_views(names@) =~= tok_views(before_n).push(name@));
            }
            if self.check(TokenType::Comma) {
                self.advance();
            } else if self.check(TokenType::RecordEnd) {
                self.advance();
                return Ok(Ast::Record(names, values));
            } else {
                return Err(self.error(Some(TokenType::RecordEnd)));
            }
        }
    }
}

} // verus!
