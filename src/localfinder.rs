use vstd::prelude::*;
use crate::ast::{
    arg_views, ast_views, call_views, lemma_arg_views, lemma_ast_views, lemma_call_views, AModel,
    Ast, CallModel, OpCall,
};
use crate::lexer::{TokView, Token, TokenType};

verus! {

/// The name a variable token stands for: its text without a leading `$`.
pub open spec fn var_name(t: TokView) -> Seq<char> {
    if t.text.len() >= 1 && t.text[0] == '$' {
        t.text.subrange(1, t.text.len() as int)
    } else {
        t.text
    }
}

/// The token is the per-element variable `@`.
pub open spec fn is_local(t: TokView) -> bool {
    t.kind == TokenType::Variable && var_name(t) == seq!['@']
}

/// Some expression of the sequence mentions `@`.
pub open spec fn seq_has_local(s: Seq<AModel>) -> bool
    decreases s, 1int,
{
    if s.len() == 0 {
        false
    } else {
        seq_has_local(s.subrange(0, s.len() - 1)) || has_local(s[s.len() - 1])
    }
}

/// Some argument expression mentions `@`.
pub open spec fn args_have_local(s: Seq<(TokView, AModel)>) -> bool
    decreases s, 1int,
{
    if s.len() == 0 {
        false
    } else {
        args_have_local(s.subrange(0, s.len() - 1)) || has_local(s[s.len() - 1].1)
    }
}

/// Some argument of some operator call mentions `@`.
pub open spec fn calls_have_local(s: Seq<CallModel>) -> bool
    decreases s, 2int,
{
    if s.len() == 0 {
        false
    } else {
        calls_have_local(s.subrange(0, s.len() - 1)) || args_have_local(s[s.len() - 1].args)
    }
}

/// The expression mentions the per-element variable `@` anywhere: in every
/// kind of node, and in the arguments of its operator calls.
pub open spec fn has_local(a: AModel) -> bool
    decreases a, 0int,
{
    match a {
        AModel::Binary(l, _, r) => has_local(*l) || has_local(*r),
        AModel::Grouping(x) => has_local(*x),
        AModel::Unary(_, x) => has_local(*x),
        AModel::Atom(t) => is_local(t),
        AModel::List(l) => seq_has_local(l),
        AModel::Record(_, v) => seq_has_local(v),
        AModel::OpExp(root, calls) => has_local(*root) || calls_have_local(calls),
        AModel::Statement(_, b) => has_local(*b),
        AModel::Query(q) => seq_has_local(q),
    }
}

proof fn lemma_seq_has_local_prefix(s: Seq<AModel>, n: int)
    requires
        0 <= n <= s.len(),
        seq_has_local(s.subrange(0, n)),
    ensures
        seq_has_local(s),
    decreases s.len() - n,
{
    if n < s.len() {
        assert(s.subrange(0, n + 1).subrange(0, n) =~= s.subrange(0, n));
        lemma_seq_has_local_prefix(s, n + 1);
    } else {
        assert(s.subrange(0, n) =~= s);
    }
}

proof fn lemma_args_have_local_prefix(s: Seq<(TokView, AModel)>, n: int)
    requires
        0 <= n <= s.len(),
        args_have_local(s.subrange(0, n)),
    ensures
        args_have_local(s),
    decreases s.len() - n,
{
    if n < s.len() {
        assert(s.subrange(0, n + 1).subrange(0, n) =~= s.subrange(0, n));
        lemma_args_have_local_prefix(s, n + 1);
    } else {
        assert(s.subrange(0, n) =~= s);
    }
}

proof fn lemma_calls_have_local_prefix(s: Seq<CallModel>, n: int)
    requires
        0 <= n <= s.len(),
        calls_have_local(s.subrange(0, n)),
    ensures
        calls_have_local(s),
    decreases s.len() - n,
{
    if n < s.len() {
        assert(s.subrange(0, n + 1).subrange(0, n) =~= s.subrange(0, n));
        lemma_calls_have_local_prefix(s, n + 1);
    } else {
        assert(s.subrange(0, n) =~= s);
    }
}

/// Finds whether an expression depends on the current element `@`.
pub struct LocalFinder {}

impl LocalFinder {
    pub fn visit_atom(&self, t: &Token) -> (r: bool)
        ensures
            r == is_local(t@),
    {
        if t.token_type != TokenType::Variable {
            return false;
        }
        let n = t.lexeme.as_str().unicode_len();
        if n == 1 {
            let c = t.lexeme.as_str().get_char(0);
            proof {
                assert(t.lexeme@ =~= seq![c]);
                if c == '$' {
                    assert(var_name(t@).len() == 0);
                }
            }
            assert((c == '@') == is_local(t@));
            c == '@'
        } else if n == 2 {
            let c0 = t.lexeme.as_str().get_char(0);
            let c1 = t.lexeme.as_str().get_char(1);
            proof {
                assert(t.lexeme@ =~= seq![c0, c1]);
                if c0 == '$' {
                    assert(var_name(t@) =~= seq![c1]);
                    if c1 == '@' {
                        assert(var_name(t@) =~= seq!['@']);
                    } else {
                        assert(var_name(t@)[0] != seq!['@'][0]);
                    }
                } else {
                    assert(var_name(t@).len() == 2);
                }
            }
            assert((c0 == '$' && c1 == '@') == is_local(t@));
            c0 == '$' && c1 == '@'
        } else {
            proof {
                if t.lexeme@.len() >= 1 && t.lexeme@[0] == '$' {
                    assert(var_name(t@).len() == n - 1);
                } else {
                    assert(var_name(t@).len() == n);
                }
                assert(seq!['@'].len() == 1);
            }
            false
        }
    }

    fn any_local(&self, l: &Vec<Ast>) -> (r: bool)
        ensures
            r == seq_has_local(ast_views(l@)),
        decreases l, 0int,
    {
        proof {
            lemma_ast_views(l@);
        }
        let ghost v = ast_views(l@);
        let mut i: usize = 0;
        while i < l.len()
            invariant
                i <= l@.len(),
                v == ast_views(l@),
                v.len() == l@.len(),
                forall|k: int| 0 <= k < l@.len() ==> #[trigger] v[k] == l@[k]@,
                !seq_has_local(v.subrange(0, i as int)),
            decreases l@.len() - i,
        {
            proof {
                assert(decreases_to!(l => l@));
                assert(decreases_to!(l@ => l@[i as int]));
                assert(v.subrange(0, i + 1).subrange(0, i as int) =~= v.subrange(0, i as int));
            }
            if self.visit(&l[i]) {
                proof {
                    lemma_seq_has_local_prefix(v, i + 1);
                }
                return true;
            }
            i += 1;
        }
        proof {
            assert(v.subrange(0, v.len() as int) =~= v);
        }
        false
    }

    /// Whether the root of a pipeline, or an argument of one of its calls, mentions `@`.
    pub fn visit_opexp(&self, ast: &Ast) -> (r: bool)
        requires
            ast is OpExp,
        ensures
            r == has_local(ast@),
        decreases ast, 0int,
    {
        let (root, calls) = match ast {
            Ast::OpExp(root, calls) => (root, calls),
            _ => {
                return false;
            },
        };
        assert(ast@ == AModel::OpExp(Box::new((**root)@), call_views(calls@)));
        proof {
            assert(decreases_to!(ast => calls));
        }
        self.visit(root) || self.calls_local(calls)
    }

    /// Whether an argument of one of the calls mentions `@`.
    fn calls_local(&self, calls: &Vec<OpCall>) -> (r: bool)
        ensures
            r == calls_have_local(call_views(calls@)),
        decreases calls, 0int,
    {
        proof {
            lemma_call_views(calls@);
        }
        let ghost cv = call_views(calls@);
        let mut c: usize = 0;
        while c < calls.len()
            invariant
                c <= calls@.len(),
                cv == call_views(calls@),
                cv.len() == calls@.len(),
                forall|x: int| 0 <= x < calls@.len() ==> #[trigger] cv[x] == calls@[x]@,
                !calls_have_local(cv.subrange(0, c as int)),
            decreases calls@.len() - c,
        {
            let args = &calls[c].args;
            proof {
                lemma_arg_views(args@);
            }
            let ghost av = arg_views(args@);
            let mut k: usize = 0;
            while k < args.len()
                invariant
                    c < calls@.len(),
                    *args == calls@[c as int].args,
                    k <= args@.len(),
                    av == arg_views(args@),
                    av.len() == args@.len(),
                    cv == call_views(calls@),
                    cv.len() == calls@.len(),
                    cv[c as int] == calls@[c as int]@,
                    !calls_have_local(cv.subrange(0, c as int)),
                    forall|y: int| 0 <= y < args@.len() ==> #[trigger] av[y] == (args@[y].0@, args@[y].1@),
                    !args_have_local(av.subrange(0, k as int)),
                decreases args@.len() - k,
            {
                proof {
                    assert(decreases_to!(calls => calls@));
                    assert(decreases_to!(calls@ => calls@[c as int]));
                    assert(decreases_to!(calls@[c as int] => calls@[c as int].args));
                    assert(decreases_to!(calls@[c as int].args => calls@[c as int].args@));
                    assert(decreases_to!(calls@[c as int].args@ => calls@[c as int].args@[k as int]));
                    assert(decreases_to!(calls@[c as int].args@[k as int] => calls@[c as int].args@[k as int].1));
                    assert(av.subrange(0, k + 1).subrange(0, k as int) =~= av.subrange(0, k as int));
                }
                if self.visit(&args[k].1) {
                    proof {
                        lemma_args_have_local_prefix(av, k + 1);
                        assert(cv[c as int].args == av);
                        assert(cv.subrange(0, c + 1).subrange(0, c as int) =~= cv.subrange(0, c as int));
                        lemma_calls_have_local_prefix(cv, c + 1);
                    }
                    return true;
                }
                k += 1;
            }
            proof {
                assert(av.subrange(0, av.len() as int) =~= av);
                assert(cv[c as int].args == av);
                assert(cv.subrange(0, c + 1).subrange(0, c as int) =~= cv.subrange(0, c as int));
            }
            c += 1;
        }
        proof {
            assert(cv.subrange(0, cv.len() as int) =~= cv);
        }
        false
    }

    /// Whether the expression mentions `@` (see `has_local`).
    pub fn visit(&self, ast: &Ast) -> (r: bool)
        ensures
            r == has_local(ast@),
        decreases ast, 1int,
    {
        match ast {
            Ast::Binary { left, op, right } => {
                assert(ast@ == AModel::Binary(Box::new((**left)@), op@, Box::new((**right)@)));
                assert(has_local(ast@) == (has_local((**left)@) || has_local((**right)@)));
                self.visit(&**left) || self.visit(&**right)
            },
            Ast::Grouping(inner) => {
                assert(ast@ == AModel::Grouping(Box::new((**inner)@)));
                self.visit(&**inner)
            },
            Ast::Unary(op, right) => {
                assert(ast@ == AModel::Unary(op@, Box::new((**right)@)));
                self.visit(&**right)
            },
            Ast::Atom(t) => {
                assert(ast@ == AModel::Atom(t@));
                self.visit_atom(t)
            },
            Ast::List(l) => {
                assert(ast@ == AModel::List(ast_views(l@)));
                self.any_local(l)
            },
            Ast::Record(names, values) => {
                assert(ast@ == AModel::Record(crate::ast::tok_views(names@), ast_views(values@)));
                self.any_local(values)
            },
            Ast::OpExp(_, _) => self.visit_opexp(ast),
            Ast::Statement(_, body) => {
                assert(has_local(ast@) == has_local((**body)@));
                self.visit(&**body)
            },
            Ast::Query(statements) => {
                assert(ast@ == AModel::Query(ast_views(statements@)));
                self.any_local(statements)
            },
        }
    }
}

impl crate::ast::Visitor<bool> for LocalFinder {
    open spec fn result(&self, a: AModel, r: bool) -> bool {
        r == has_local(a)
    }

    fn visit_binary(&self, left: &Ast, op: &Token, right: &Ast) -> (r: bool) {
        self.visit(left) || self.visit(right)
    }

    fn visit_grouping(&self, inner: &Ast) -> (r: bool) {
        self.visit(inner)
    }

    fn visit_unary(&self, op: &Token, right: &Ast) -> (r: bool) {
        self.visit(right)
    }

    fn visit_atom(&self, t: &Token) -> (r: bool) {
        LocalFinder::visit_atom(self, t)
    }

    fn visit_list(&self, list: &Vec<Ast>) -> (r: bool) {
        self.any_local(list)
    }

    fn visit_record(&self, names: &Vec<Token>, values: &Vec<Ast>) -> (r: bool) {
        self.any_local(values)
    }

    fn visit_opexp(&self, root: &Ast, opcalls: &Vec<OpCall>) -> (r: bool) {
        self.visit(root) || self.calls_local(opcalls)
    }

    fn visit_statement(&self, variable: &Option<Token>, body: &Ast) -> (r: bool) {
        self.visit(body)
    }

    fn visit_query(&self, statements: &Vec<Ast>) -> (r: bool) {
        self.any_local(statements)
    }
}

} // verus!
