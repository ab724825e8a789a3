use vstd::prelude::*;
use crate::ast::{ast_views, lemma_ast_views, tok_views, AModel, Ast, CallModel, OpCall};
use crate::environment::{lookup, scope_get, scopes_wf, Environment, ScopeModel};
use crate::error::{result_view, Error, Failure};
use crate::lexer::{TokView, Token, TokenType};
use crate::text::{chars_of, string_of};
use crate::localfinder::{has_local, var_name};
use crate::number::Number;
use crate::value::{
    add_spec, compare_spec, div_spec, field_views, keys_unique, lemma_field_views, lemma_views,
    logic_spec, model_eq, model_wf, mul_spec, neg_spec, same_type, sub_spec, views, VModel, Value,
};

verus! {

pub open spec fn digit_value(c: char) -> int {
    c as int - '0' as int
}

/// Reads a number literal (digits, optionally `.` and digits) as the parts
/// `(all digits as one integer, 10 to the count of digits after the point)`.
pub open spec fn decimal_parts(s: Seq<char>) -> (int, int, bool)
    decreases s.len(),
{
    if s.len() == 0 {
        (0, 1, false)
    } else {
        let p = decimal_parts(s.drop_last());
        if s.last() == '.' {
            (p.0, p.1, true)
        } else {
            (p.0 * 10 + digit_value(s.last()), if p.2 { p.1 * 10 } else { p.1 }, p.2)
        }
    }
}

pub open spec fn is_decimal_text(s: Seq<char>) -> bool {
    forall|i: int| 0 <= i < s.len() ==> s[i] == '.' || ('0' <= #[trigger] s[i] <= '9')
}

/// The value of a number literal; an error if a part leaves the `i64` range.
pub open spec fn number_literal(s: Seq<char>) -> Result<VModel, Failure> {
    let p = decimal_parts(s);
    if !is_decimal_text(s) {
        Err(Failure::UnexpectedAtom)
    } else if p.0 <= i64::MAX && p.1 <= i64::MAX {
        Ok(VModel::Number(Number { num: p.0 as i64, den: p.1 as i64 }))
    } else {
        Err(Failure::NumberRange)
    }
}

pub open spec fn string_literal(t: TokView) -> Seq<char> {
    if t.text.len() >= 2 {
        t.text.subrange(1, t.text.len() - 1)
    } else {
        t.text
    }
}

/// The value of an atom: a literal, or the value bound to a variable.
pub open spec fn atom_spec(env: Seq<ScopeModel>, t: TokView) -> Result<VModel, Failure> {
    if t.kind == TokenType::String {
        Ok(VModel::Str(string_literal(t)))
    } else if t.kind == TokenType::Number {
        number_literal(t.text)
    } else if t.kind == TokenType::Bool {
        Ok(VModel::Bool(t.text == seq!['t', 'r', 'u', 'e']))
    } else if t.kind == TokenType::Variable {
        match lookup(env, var_name(t)) {
            Some(v) => Ok(v),
            None => Err(Failure::UndefinedVariable(var_name(t))),
        }
    } else {
        Err(Failure::UnexpectedAtom)
    }
}

/// A binary operator (by its token kind) applied to two values.
pub open spec fn binary_spec(k: TokenType, x: VModel, y: VModel) -> Result<VModel, Failure> {
    if k == TokenType::Plus {
        add_spec(x, y)
    } else if k == TokenType::Minus {
        sub_spec(x, y)
    } else if k == TokenType::Star {
        mul_spec(x, y)
    } else if k == TokenType::Slash {
        div_spec(x, y)
    } else if k == TokenType::Greater || k == TokenType::GreaterEqual || k == TokenType::Lesser
        || k == TokenType::LesserEqual {
        compare_spec(k, x, y)
    } else if k == TokenType::EqualEqual {
        Ok(VModel::Bool(model_eq(x, y)))
    } else if k == TokenType::BangEqual {
        Ok(VModel::Bool(!model_eq(x, y)))
    } else if k == TokenType::And || k == TokenType::Or {
        logic_spec(k, x, y)
    } else {
        Err(Failure::Type(k))
    }
}

/// The index of the field named `k`, if any.
pub open spec fn field_index(fields: Seq<(Seq<char>, VModel)>, k: Seq<char>, j: int) -> Option<int>
    decreases fields.len() - j,
{
    if j < 0 || j >= fields.len() {
        None
    } else if fields[j].0 == k {
        Some(j)
    } else {
        field_index(fields, k, j + 1)
    }
}

/// Sets field `k` to `v`: a later field of an existing name overwrites it in place.
pub open spec fn set_field(fields: Seq<(Seq<char>, VModel)>, k: Seq<char>, v: VModel) -> Seq<(Seq<char>, VModel)> {
    match field_index(fields, k, 0) {
        Some(j) => fields.update(j, (k, v)),
        None => fields.push((k, v)),
    }
}

/// The scopes with a new innermost scope that binds `@` to `e`.
pub open spec fn with_local(env: Seq<ScopeModel>, e: VModel) -> Seq<ScopeModel> {
    env.push(seq![(seq!['@'], e)])
}

/// The operators this library provides, by (namespace, name).
#[derive(Clone, Copy, PartialEq, Eq, Structural)]
pub enum OpKind {
    First,
    Filter,
}

pub open spec fn std_name() -> Seq<char> {
    seq!['s', 't', 'd']
}

/// Resolves an operator path: `name` is `std.name`; `ns.name` names both.
pub open spec fn resolve_spec(path: Seq<TokView>) -> Option<OpKind> {
    let ns = if path.len() == 1 {
        std_name()
    } else if path.len() == 2 {
        path[0].text
    } else {
        Seq::empty()
    };
    let name = if path.len() == 1 || path.len() == 2 {
        path[path.len() - 1].text
    } else {
        Seq::empty()
    };
    if ns == std_name() && name == seq!['f', 'i', 'r', 's', 't'] {
        Some(OpKind::First)
    } else if ns == std_name() && name == seq!['f', 'i', 'l', 't', 'e', 'r'] {
        Some(OpKind::Filter)
    } else {
        None
    }
}

pub open spec fn where_name() -> Seq<char> {
    seq!['w', 'h', 'e', 'r', 'e']
}

/// The value of the first parameter named `name`, from index `j` on.
pub open spec fn pget(ps: Seq<(Seq<char>, VModel)>, name: Seq<char>, j: int) -> Option<VModel>
    decreases ps.len() - j,
{
    if j < 0 || j >= ps.len() {
        None
    } else if ps[j].0 == name {
        Some(ps[j].1)
    } else {
        pget(ps, name, j + 1)
    }
}

/// The value of an expression; it changes no binding.
pub open spec fn eval_expr(env: Seq<ScopeModel>, a: AModel) -> Result<VModel, Failure>
    decreases a, 0int, 0int,
{
    match a {
        AModel::Binary(l, op, r) => match eval_expr(env, *l) {
            Ok(x) => match eval_expr(env, *r) {
                Ok(y) => binary_spec(op.kind, x, y),
                Err(e) => Err(e),
            },
            Err(e) => Err(e),
        },
        AModel::Grouping(x) => eval_expr(env, *x),
        AModel::Unary(op, x) => match eval_expr(env, *x) {
            Ok(v) => if op.kind == TokenType::Minus {
                neg_spec(v)
            } else {
                Err(Failure::Type(op.kind))
            },
            Err(e) => Err(e),
        },
        AModel::Atom(t) => atom_spec(env, t),
        AModel::List(items) => eval_items(env, items, 0, Seq::empty()),
        AModel::Record(names, vals) => if names.len() == vals.len() {
            eval_fields(env, names, vals, 0, Seq::empty())
        } else {
            Err(Failure::UnexpectedAtom)
        },
        AModel::OpExp(root, calls) => match eval_expr(env, *root) {
            Ok(base) => run_calls(env, base, calls, 0),
            Err(e) => Err(e),
        },
        _ => Err(Failure::UnexpectedAtom),
    }
}

/// Evaluates the list items from `i` on, after the values `acc`; each must
/// have the type of the first.
pub open spec fn eval_items(env: Seq<ScopeModel>, items: Seq<AModel>, i: int, acc: Seq<VModel>) -> Result<
    VModel,
    Failure,
>
    decreases items, 1int, items.len() - i,
{
    if i < 0 || i >= items.len() {
        Ok(VModel::List(acc))
    } else {
        match eval_expr(env, items[i]) {
            Ok(v) => if acc.len() > 0 && !same_type(acc[0], v) {
                Err(Failure::MixedList)
            } else {
                eval_items(env, items, i + 1, acc.push(v))
            },
            Err(e) => Err(e),
        }
    }
}

/// Evaluates the record fields from `i` on into `acc`.
pub open spec fn eval_fields(
    env: Seq<ScopeModel>,
    names: Seq<TokView>,
    vals: Seq<AModel>,
    i: int,
    acc: Seq<(Seq<char>, VModel)>,
) -> Result<VModel, Failure>
    decreases vals, 1int, vals.len() - i,
{
    if i < 0 || i >= vals.len() || i >= names.len() {
        Ok(VModel::Record(acc))
    } else {
        match eval_expr(env, vals[i]) {
            Ok(v) => eval_fields(env, names, vals, i + 1, set_field(acc, names[i].text, v)),
            Err(e) => Err(e),
        }
    }
}

/// Runs the operator calls from `i` on, feeding each the previous output.
pub open spec fn run_calls(env: Seq<ScopeModel>, input: VModel, calls: Seq<CallModel>, i: int) -> Result<
    VModel,
    Failure,
>
    decreases calls, 3int, calls.len() - i,
{
    if i < 0 || i >= calls.len() {
        Ok(input)
    } else {
        match apply_call(env, input, calls[i]) {
            Ok(out) => run_calls(env, out, calls, i + 1),
            Err(e) => Err(e),
        }
    }
}

/// The arguments that do not mention `@`, evaluated once before any
/// element is pulled (`Some`); `None` for the others.
pub open spec fn pre_eval(env: Seq<ScopeModel>, args: Seq<(TokView, AModel)>, k: int, acc: Seq<Option<VModel>>) -> Result<
    Seq<Option<VModel>>,
    Failure,
>
    decreases args, 1int, args.len() - k,
{
    if k < 0 || k >= args.len() {
        Ok(acc)
    } else if has_local(args[k].1) {
        pre_eval(env, args, k + 1, acc.push(None))
    } else {
        match eval_expr(env, args[k].1) {
            Ok(v) => pre_eval(env, args, k + 1, acc.push(Some(v))),
            Err(e) => Err(e),
        }
    }
}

/// The arguments for element `e`: values evaluated once are reused; the
/// others are evaluated with `@` bound to `e`.
pub open spec fn row_args(
    env: Seq<ScopeModel>,
    args: Seq<(TokView, AModel)>,
    pre: Seq<Option<VModel>>,
    e: VModel,
    k: int,
    acc: Seq<(Seq<char>, VModel)>,
) -> Result<Seq<(Seq<char>, VModel)>, Failure>
    decreases args, 1int, args.len() - k,
{
    if k < 0 || k >= args.len() || k >= pre.len() {
        Ok(acc)
    } else {
        match pre[k] {
            Some(v) => row_args(env, args, pre, e, k + 1, acc.push((args[k].0.text, v))),
            None => match eval_expr(with_local(env, e), args[k].1) {
                Ok(v) => row_args(env, args, pre, e, k + 1, acc.push((args[k].0.text, v))),
                Err(err) => Err(err),
            },
        }
    }
}

/// `filter` from element `i` on: keeps the elements whose `where` argument is `true`.
pub open spec fn filter_from(
    env: Seq<ScopeModel>,
    args: Seq<(TokView, AModel)>,
    pre: Seq<Option<VModel>>,
    input: Seq<VModel>,
    i: int,
    acc: Seq<VModel>,
) -> Result<VModel, Failure>
    decreases args, 2int, input.len() - i,
{
    if i < 0 || i >= input.len() {
        Ok(VModel::List(acc))
    } else {
        match row_args(env, args, pre, input[i], 0, Seq::empty()) {
            Ok(ps) => match pget(ps, where_name(), 0) {
                Some(VModel::Bool(true)) => filter_from(env, args, pre, input, i + 1, acc.push(input[i])),
                Some(VModel::Bool(false)) => filter_from(env, args, pre, input, i + 1, acc),
                Some(_) => Err(Failure::BadArgument(where_name())),
                None => Err(Failure::MissingArgument(where_name())),
            },
            Err(e) => Err(e),
        }
    }
}

/// `first`: the list of the first element; its arguments are resolved for it.
pub open spec fn first_spec(
    env: Seq<ScopeModel>,
    args: Seq<(TokView, AModel)>,
    pre: Seq<Option<VModel>>,
    input: Seq<VModel>,
) -> Result<VModel, Failure>
    decreases args, 2int, 0int,
{
    if input.len() == 0 {
        Err(Failure::EmptyInput)
    } else {
        match row_args(env, args, pre, input[0], 0, Seq::empty()) {
            Ok(_) => Ok(VModel::List(seq![input[0]])),
            Err(e) => Err(e),
        }
    }
}

/// One operator call on the current value: resolve the operator, require a
/// list, evaluate the arguments that do not mention `@`, then run it.
pub open spec fn apply_call(env: Seq<ScopeModel>, input: VModel, call: CallModel) -> Result<VModel, Failure>
    decreases call, 0int, 0int,
{
    match resolve_spec(call.path) {
        None => Err(Failure::UnknownOperator),
        Some(op) => match input {
            VModel::List(l) => match pre_eval(env, call.args, 0, Seq::empty()) {
                Ok(pre) => match op {
                    OpKind::First => first_spec(env, call.args, pre, l),
                    OpKind::Filter => filter_from(env, call.args, pre, l, 0, Seq::empty()),
                },
                Err(e) => Err(e),
            },
            _ => Err(Failure::NotAList),
        },
    }
}

/// A statement: its body's value, bound to its name (if any) in the
/// innermost scope; binding a name twice in one scope is an error.
pub open spec fn eval_stmt(env: Seq<ScopeModel>, a: AModel) -> (Result<VModel, Failure>, Seq<ScopeModel>) {
    match a {
        AModel::Statement(name, body) => match eval_expr(env, *body) {
            Ok(v) => match name {
                Some(t) => if scope_get(env.last(), t.text) is Some {
                    (Err(Failure::Redefinition(t.text)), env)
                } else {
                    (Ok(v), env.drop_last().push(env.last().push((t.text, v))))
                },
                None => (Ok(v), env),
            },
            Err(e) => (Err(e), env),
        },
        _ => (eval_expr(env, a), env),
    }
}

/// Runs statements `i..` in one environment; the value is the last one's.
pub open spec fn eval_stmts(env: Seq<ScopeModel>, q: Seq<AModel>, i: int, last: VModel) -> (Result<VModel, Failure>, Seq<ScopeModel>)
    decreases q.len() - i,
{
    if i < 0 || i >= q.len() {
        (Ok(last), env)
    } else {
        let (r, env2) = eval_stmt(env, q[i]);
        match r {
            Ok(v) => eval_stmts(env2, q, i + 1, v),
            Err(e) => (Err(e), env2),
        }
    }
}

/// The value of a query, statement or expression, and the scopes after it.
pub open spec fn eval_top(env: Seq<ScopeModel>, a: AModel) -> (Result<VModel, Failure>, Seq<ScopeModel>) {
    match a {
        AModel::Query(q) => if q.len() == 0 {
            (Err(Failure::EmptyQuery), env)
        } else {
            let (r, env2) = eval_stmt(env, q[0]);
            match r {
                Ok(v) => eval_stmts(env2, q, 1, v),
                Err(e) => (Err(e), env2),
            }
        },
        _ => eval_stmt(env, a),
    }
}

/// Whether the text of `s` is `w`.
pub fn text_is(s: &String, w: &Vec<char>) -> (r: bool)
    ensures
        r == (s@ == w@),
{
    let c = chars_of(s.as_str());
    if c.len() != w.len() {
        return false;
    }
    let mut i: usize = 0;
    while i < c.len()
        invariant
            c@ == s@,
            c@.len() == w@.len(),
            i <= c@.len(),
            forall|k: int| 0 <= k < i ==> c@[k] == w@[k],
        decreases c@.len() - i,
    {
        if c[i] != w[i] {
            return false;
        }
        i += 1;
    }
    assert(c@ =~= w@);
    true
}

proof fn lemma_decimal_nonneg(s: Seq<char>)
    requires
        forall|i: int| 0 <= i < s.len() ==> s[i] == '.' || ('0' <= #[trigger] s[i] <= '9'),
    ensures
        decimal_parts(s).0 >= 0,
        decimal_parts(s).1 >= 1,
    decreases s.len(),
{
    if s.len() > 0 {
        lemma_decimal_nonneg(s.drop_last());
    }
}

/// Parts only grow as a literal goes on.
proof fn lemma_decimal_grows(s: Seq<char>, i: int)
    requires
        0 <= i <= s.len(),
        forall|k: int| 0 <= k < s.len() ==> s[k] == '.' || ('0' <= #[trigger] s[k] <= '9'),
    ensures
        decimal_parts(s.subrange(0, i)).0 <= decimal_parts(s).0,
        decimal_parts(s.subrange(0, i)).1 <= decimal_parts(s).1,
    decreases s.len() - i,
{
    if i < s.len() {
        lemma_decimal_grows(s, i + 1);
        let t = s.subrange(0, i + 1);
        assert(t.drop_last() =~= s.subrange(0, i));
        lemma_decimal_nonneg(s.subrange(0, i));
    } else {
        assert(s.subrange(0, i) =~= s);
    }
}

/// The value of a number literal's text.
fn number_value(text: &String) -> (r: Result<Value, Error>)
    ensures
        result_view(r) == number_literal(text@),
        r matches Ok(v) ==> model_wf(v@),
{
    let c = chars_of(text.as_str());
    let mut j: usize = 0;
    while j < c.len()
        invariant
            c@ == text@,
            j <= c@.len(),
            forall|k: int| 0 <= k < j ==> c@[k] == '.' || ('0' <= #[trigger] c@[k] <= '9'),
        decreases c@.len() - j,
    {
        if c[j] != '.' && !('0' <= c[j] && c[j] <= '9') {
            proof {
                assert(!(c@[j as int] == '.' || ('0' <= c@[j as int] <= '9')));
                assert(!is_decimal_text(text@));
            }
            return Err(Error::UnexpectedAtom);
        }
        j += 1;
    }
    let mut num: i64 = 0;
    let mut den: i64 = 1;
    let mut seen = false;
    let mut i: usize = 0;
    let ghost digits_only = forall|k: int| 0 <= k < c@.len() ==> c@[k] == '.' || ('0' <= #[trigger] c@[k] <= '9');
    while i < c.len()
        invariant
            c@ == text@,
            i <= c@.len(),
            digits_only == (forall|k: int| 0 <= k < c@.len() ==> c@[k] == '.' || ('0' <= #[trigger] c@[k] <= '9')),
            digits_only,
            digits_only ==> decimal_parts(c@.subrange(0, i as int)) == (num as int, den as int, seen),
            den >= 1,
        decreases c@.len() - i,
    {
        let ch = c[i];
        proof {
            assert(c@.subrange(0, i + 1).drop_last() =~= c@.subrange(0, i as int));
        }
        if ch == '.' {
            seen = true;
        } else if '0' <= ch && ch <= '9' {
            let d = (ch as u32 - '0' as u32) as i64;
            let n2 = num.checked_mul(10);
            let n3 = match n2 {
                Some(x) => x.checked_add(d),
                None => None,
            };
            let d2 = if seen {
                den.checked_mul(10)
            } else {
                Some(den)
            };
            match (n3, d2) {
                (Some(x), Some(y)) => {
                    num = x;
                    den = y;
                },
                _ => {
                    proof {
                        if digits_only {
                            let p = decimal_parts(c@.subrange(0, i as int));
                            assert(digit_value(ch) == d);
                            assert(decimal_parts(c@.subrange(0, i + 1)) == (
                                p.0 * 10 + digit_value(ch),
                                if p.2 { p.1 * 10 } else { p.1 },
                                p.2,
                            ));
                            lemma_decimal_nonneg(c@.subrange(0, i as int));
                            lemma_decimal_grows(c@, i + 1);
                            let q = decimal_parts(c@.subrange(0, i + 1));
                            assert(num >= 0 && 0 <= d <= 9);
                            if n2 is None {
                                assert(num * 10 > i64::MAX);
                                assert(q.0 > i64::MAX);
                            } else if n3 is None {
                                assert(q.0 > i64::MAX);
                            } else {
                                assert(q.1 > i64::MAX);
                            }
                            assert(is_decimal_text(text@));
                        }
                    }
                    return Err(Error::NumberRange);
                },
            }
        } else {
            return Err(Error::UnexpectedAtom);
        }
        i += 1;
    }
    proof {
        assert(c@.subrange(0, c@.len() as int) =~= c@);
    }
    Ok(Value::Number(Number { num, den }))
}

/// A tree-walking evaluator over one environment.
pub struct Eval {
    pub environment: Environment,
}

impl Eval {
    /// An evaluator over `environment`, or over a fresh one.
    pub fn new(environment: Option<Environment>) -> (r: Eval)
        requires
            environment matches Some(e) ==> e.wf(),
        ensures
            r.environment.wf(),
            environment matches Some(e) ==> r.environment@ == e@,
            environment is None ==> r.environment@ == seq![Seq::<(Seq<char>, VModel)>::empty()],
    {
        match environment {
            Some(env) => Eval { environment: env },
            None => Eval { environment: Environment::new(None) },
        }
    }

    pub fn visit_atom(&self, token: &Token) -> (r: Result<Value, Error>)
        requires
            self.environment.wf(),
        ensures
            result_view(r) == atom_spec(self.environment@, token@),
            r matches Ok(v) ==> model_wf(v@),
    {
        let literal = token.literal();
        match token.token_type {
            TokenType::String => Ok(Value::String(literal)),
            TokenType::Number => number_value(&token.lexeme),
            TokenType::Bool => Ok(Value::Bool(text_is(&token.lexeme, &vec!['t', 'r', 'u', 'e']))),
            TokenType::Variable => self.environment.get(literal.as_str()),
            _ => Err(Error::UnexpectedAtom),
        }
    }
}


/// The operator a path names (see `resolve_spec`).
pub fn resolve(path: &Vec<Token>) -> (r: Option<OpKind>)
    ensures
        r == resolve_spec(tok_views(path@)),
{
    let std = vec!['s', 't', 'd'];
    let ns_std = if path.len() == 1 {
        true
    } else if path.len() == 2 {
        text_is(&path[0].lexeme, &std)
    } else {
        false
    };
    if path.len() == 0 || path.len() > 2 || !ns_std {
        return None;
    }
    let name = &path[path.len() - 1].lexeme;
    if text_is(name, &vec!['f', 'i', 'r', 's', 't']) {
        Some(OpKind::First)
    } else if text_is(name, &vec!['f', 'i', 'l', 't', 'e', 'r']) {
        Some(OpKind::Filter)
    } else {
        None
    }
}

impl Eval {
    /// The value of an expression (see `eval_expr`); bindings are unchanged.
    pub fn expr(&mut self, ast: &Ast) -> (r: Result<Value, Error>)
        requires
            old(self).environment.wf(),
        ensures
            final(self).environment.wf(),
            final(self).environment@ == old(self).environment@,
            result_view(r) == eval_expr(old(self).environment@, ast@),
            r matches Ok(v) ==> model_wf(v@),
        decreases ast, 3int,
    {
        match ast {
            Ast::Binary { .. } => {
                return self.visit_binary(ast);
            },
            Ast::Grouping(inner) => {
                assert(ast@ == AModel::Grouping(Box::new((**inner)@)));
                self.expr(&**inner)
            },
            Ast::Unary(..) => self.visit_unary(ast),
            Ast::Atom(t) => {
                assert(ast@ == AModel::Atom(t@));
                self.visit_atom(t)
            },
            Ast::List(l) => {
                assert(ast@ == AModel::List(ast_views(l@)));
                self.visit_list(l)
            },
            Ast::Record(names, values) => {
                proof {
                    lemma_ast_views(values@);
                }
                assert(ast@ == AModel::Record(tok_views(names@), ast_views(values@)));
                self.visit_record(names, values)
            },
            Ast::OpExp(..) => self.visit_opexp(ast),
            Ast::Statement(..) => {
                assert(eval_expr(self.environment@, ast@) == Err::<VModel, Failure>(Failure::UnexpectedAtom));
                Err(Error::UnexpectedAtom)
            },
            Ast::Query(q) => {
                assert(ast@ == AModel::Query(ast_views(q@)));
                Err(Error::UnexpectedAtom)
            },
        }
    }

    pub fn visit_binary(&mut self, ast: &Ast) -> (r: Result<Value, Error>)
        requires
            old(self).environment.wf(),
            ast is Binary,
        ensures
            final(self).environment.wf(),
            final(self).environment@ == old(self).environment@,
            result_view(r) == eval_expr(old(self).environment@, ast@),
            r matches Ok(v) ==> model_wf(v@),
        decreases ast, 2int,
    {
        let (left, op, right) = match ast {
            Ast::Binary { left, op, right } => (left, op, right),
            _ => {
                return Err(Error::UnexpectedAtom);
            },
        };
        assert(ast@ == AModel::Binary(Box::new((**left)@), op@, Box::new((**right)@)));
        let l = match self.expr(&**left) {
            Ok(v) => v,
            Err(e) => {
                return Err(e);
            },
        };
        let r = match self.expr(&**right) {
            Ok(v) => v,
            Err(e) => {
                return Err(e);
            },
        };
        match op.token_type {
            TokenType::Plus => l.add(&r),
            TokenType::Minus => l.sub(&r),
            TokenType::Star => l.mul(&r),
            TokenType::Slash => l.div(&r),
            TokenType::GreaterEqual => l.ge(&r),
            TokenType::Greater => l.gt(&r),
            TokenType::LesserEqual => l.le(&r),
            TokenType::Lesser => l.lt(&r),
            TokenType::EqualEqual => Ok(Value::Bool(l.equals(&r))),
            TokenType::BangEqual => Ok(Value::Bool(!l.equals(&r))),
            TokenType::Or => l.or(&r),
            TokenType::And => l.and(&r),
            _ => Err(Error::Type(op.token_type)),
        }
    }

    pub fn visit_unary(&mut self, ast: &Ast) -> (r: Result<Value, Error>)
        requires
            old(self).environment.wf(),
            ast is Unary,
        ensures
            final(self).environment.wf(),
            final(self).environment@ == old(self).environment@,
            result_view(r) == eval_expr(old(self).environment@, ast@),
            r matches Ok(v) ==> model_wf(v@),
        decreases ast, 2int,
    {
        let (op, right) = match ast {
            Ast::Unary(op, right) => (op, right),
            _ => {
                return Err(Error::UnexpectedAtom);
            },
        };
        assert(ast@ == AModel::Unary(op@, Box::new((**right)@)));
        let v = match self.expr(&**right) {
            Ok(v) => v,
            Err(e) => {
                return Err(e);
            },
        };
        if op.token_type == TokenType::Minus {
            v.neg()
        } else {
            Err(Error::Type(op.token_type))
        }
    }

    /// A list literal: its items' values, which must all be of the first one's type.
    pub fn visit_list(&mut self, list: &Vec<Ast>) -> (r: Result<Value, Error>)
        requires
            old(self).environment.wf(),
        ensures
            final(self).environment.wf(),
            final(self).environment@ == old(self).environment@,
            result_view(r) == eval_items(old(self).environment@, ast_views(list@), 0, Seq::empty()),
            r matches Ok(v) ==> model_wf(v@),
        decreases list, 2int,
    {
        let ghost env = self.environment@;
        let ghost lv = ast_views(list@);
        proof {
            lemma_ast_views(list@);
            assert(views(Seq::<Value>::empty()) =~= Seq::<VModel>::empty());
        }
        let mut v: Vec<Value> = Vec::new();
        let mut t0: Option<crate::value::Type> = None;
        let mut i: usize = 0;
        while i < list.len()
            invariant
                self.environment.wf(),
                self.environment@ == env,
                env == old(self).environment@,
                lv == ast_views(list@),
                lv.len() == list@.len(),
                forall|k: int| 0 <= k < list@.len() ==> #[trigger] lv[k] == list@[k]@,
                i <= list@.len(),
                v@.len() == i,
                i > 0 ==> (t0 matches Some(t) && t@ == crate::value::type_of(v@[0]@)),
                eval_items(env, lv, i as int, views(v@)) == eval_items(env, lv, 0, Seq::empty()),
                forall|k: int| 0 <= k < v@.len() ==> model_wf(#[trigger] v@[k]@),
            decreases list@.len() - i,
        {
            proof {
                assert(decreases_to!(list => list@));
                assert(decreases_to!(list@ => list@[i as int]));
                lemma_views(v@);
            }
            let r = match self.expr(&list[i]) {
                Ok(x) => x,
                Err(e) => {
                    return Err(e);
                },
            };
            if i > 0 {
                let same = match &t0 {
                    Some(t) => t.equals(&r.get_type()),
                    None => false,
                };
                if !same {
                    return Err(Error::MixedList);
                }
            } else {
                t0 = Some(r.get_type());
            }
            let ghost before = v@;
            v.push(r);
            proof {
                assert(v@.drop_last() =~= before);
                lemma_views(v@);
            }
            i += 1;
        }
        proof {
            lemma_views(v@);
        }
        Ok(Value::List(v))
    }

    /// A record literal: each name bound to its value; a repeated name keeps
    /// its first place and takes the later value.
    pub fn visit_record(&mut self, names: &Vec<Token>, values: &Vec<Ast>) -> (r: Result<Value, Error>)
        requires
            old(self).environment.wf(),
        ensures
            final(self).environment.wf(),
            final(self).environment@ == old(self).environment@,
            result_view(r) == (if names@.len() == values@.len() {
                eval_fields(old(self).environment@, tok_views(names@), ast_views(values@), 0, Seq::empty())
            } else {
                Err(Failure::UnexpectedAtom)
            }),
            r matches Ok(v) ==> model_wf(v@),
        decreases values, 2int,
    {
        if names.len() != values.len() {
            return Err(Error::UnexpectedAtom);
        }
        let ghost env = self.environment@;
        let ghost nv = tok_views(names@);
        let ghost vv = ast_views(values@);
        proof {
            lemma_ast_views(values@);
            assert(field_views(Seq::<(String, Value)>::empty()) =~= Seq::<(Seq<char>, VModel)>::empty());
        }
        let mut fields: Vec<(String, Value)> = Vec::new();
        let mut i: usize = 0;
        while i < values.len()
            invariant
                self.environment.wf(),
                self.environment@ == env,
                env == old(self).environment@,
                names@.len() == values@.len(),
                nv == tok_views(names@),
                vv == ast_views(values@),
                vv.len() == values@.len(),
                forall|k: int| 0 <= k < values@.len() ==> #[trigger] vv[k] == values@[k]@,
                i <= values@.len(),
                eval_fields(env, nv, vv, i as int, field_views(fields@)) == eval_fields(env, nv, vv, 0, Seq::empty()),
                keys_unique(field_views(fields@)),
                forall|k: int| 0 <= k < fields@.len() ==> model_wf(#[trigger] fields@[k].1@),
            decreases values@.len() - i,
        {
            proof {
                assert(decreases_to!(values => values@));
                assert(decreases_to!(values@ => values@[i as int]));
            }
            let v = match self.expr(&values[i]) {
                Ok(x) => x,
                Err(e) => {
                    return Err(e);
                },
            };
            let key = names[i].lexeme.clone();
            let ghost before = fields@;
            proof {
                lemma_field_views(fields@);
                lemma_field_index(field_views(fields@), key@, 0);
            }
            match crate::value::find_name(&fields, &key) {
                Some(j) => {
                    proof {
                        lemma_field_index_first(field_views(fields@), key@, j as int);
                    }
                    fields[j] = (key, v);
                    proof {
                        lemma_field_views(fields@);
                        assert(field_views(fields@) =~= field_views(before).update(j as int, (names@[i as int].lexeme@, v@)));
                    }
                },
                None => {
                    proof {
                        lemma_field_index_none(field_views(fields@), key@);
                    }
                    fields.push((key, v));
                    proof {
                        assert(fields@.drop_last() =~= before);
                    }
                },
            }
            proof {
                lemma_field_views(fields@);
                let fv = field_views(fields@);
                assert forall|a: int, b: int| 0 <= a < b < fv.len() implies fv[a].0 != fv[b].0 by {
                    lemma_field_views(before);
                }
            }
            i += 1;
        }
        proof {
            lemma_field_views(fields@);
        }
        Ok(Value::Record(fields))
    }

    pub fn visit_opexp(&mut self, ast: &Ast) -> (r: Result<Value, Error>)
        requires
            old(self).environment.wf(),
            ast is OpExp,
        ensures
            final(self).environment.wf(),
            final(self).environment@ == old(self).environment@,
            result_view(r) == eval_expr(old(self).environment@, ast@),
            r matches Ok(v) ==> model_wf(v@),
        decreases ast, 2int,
    {
        let (root, calls) = match ast {
            Ast::OpExp(root, calls) => (root, calls),
            _ => {
                return Err(Error::UnexpectedAtom);
            },
        };
        let ghost env = self.environment@;
        let ghost cv = crate::ast::call_views(calls@);
        proof {
            crate::ast::lemma_call_views(calls@);
        }
        assert(ast@ == AModel::OpExp(Box::new((**root)@), cv));
        let mut base = match self.expr(&**root) {
            Ok(v) => v,
            Err(e) => {
                return Err(e);
            },
        };
        let mut i: usize = 0;
        while i < calls.len()
            invariant
                ast matches Ast::OpExp(r0, c0) && c0 == *calls && *r0 == *root,
                self.environment.wf(),
                self.environment@ == env,
                env == old(self).environment@,
                cv == crate::ast::call_views(calls@),
                cv.len() == calls@.len(),
                forall|k: int| 0 <= k < calls@.len() ==> #[trigger] cv[k] == calls@[k]@,
                i <= calls@.len(),
                model_wf(base@),
                run_calls(env, base@, cv, i as int) == eval_expr(env, ast@),
            decreases calls@.len() - i,
        {
            proof {
                assert(decreases_to!(ast => calls));
                assert(decreases_to!(calls => calls@));
                assert(decreases_to!(calls@ => calls@[i as int]));
            }
            base = match self.apply_call(&calls[i], base) {
                Ok(v) => v,
                Err(e) => {
                    return Err(e);
                },
            };
            i += 1;
        }
        Ok(base)
    }

    /// One operator call on `input` (see `apply_call`).
    pub fn apply_call(&mut self, call: &OpCall, input: Value) -> (r: Result<Value, Error>)
        requires
            old(self).environment.wf(),
            model_wf(input@),
        ensures
            final(self).environment.wf(),
            final(self).environment@ == old(self).environment@,
            result_view(r) == apply_call(old(self).environment@, input@, call@),
            r matches Ok(v) ==> model_wf(v@),
        decreases call, 1int,
    {
        let ghost env = self.environment@;
        let kind = match resolve(&call.path) {
            Some(k) => k,
            None => {
                return Err(Error::UnknownOperator);
            },
        };
        let items = match input {
            Value::List(items) => items,
            _ => {
                return Err(Error::NotAList);
            },
        };
        proof {
            lemma_views(items@);
            assert(input@ == VModel::List(views(items@)));
            assert forall|i: int| 0 <= i < items@.len() implies model_wf(#[trigger] items@[i]@) by {
                assert(views(items@)[i] == items@[i]@);
            }
        }
        let args = &call.args;
        let ghost av = crate::ast::arg_views(args@);
        proof {
            crate::ast::lemma_arg_views(args@);
            assert(crate::ops::pre_of(Seq::<(String, crate::ops::RawValue)>::empty()) =~= Seq::<Option<VModel>>::empty());
        }
        let finder = crate::localfinder::LocalFinder {};
        let mut params: crate::ops::ParamList<crate::ops::RawValue> = crate::ops::ParamList::new(Vec::new());
        let mut k: usize = 0;
        while k < args.len()
            invariant
                self.environment.wf(),
                self.environment@ == env,
                env == old(self).environment@,
                resolve_spec(call@.path) == Some(kind),
                input@ == VModel::List(views(items@)),
                call@.args == av,
                av == crate::ast::arg_views(args@),
                av.len() == args@.len(),
                *args == call.args,
                forall|y: int| 0 <= y < args@.len() ==> #[trigger] av[y] == (args@[y].0@, args@[y].1@),
                k <= args@.len(),
                params.args@.len() == k,
                forall|y: int| 0 <= y < k ==> (#[trigger] params.args@[y]).0@ == args@[y].0@.text,
                forall|y: int| 0 <= y < k ==> crate::ops::raw_wf(#[trigger] params.args@[y].1),
                pre_eval(env, av, k as int, crate::ops::pre_of(params.args@)) == pre_eval(env, av, 0, Seq::empty()),
            decreases args@.len() - k,
        {
            let name = args[k].0.lexeme.clone();
            let ghost before = params.args@;
            if finder.visit(&args[k].1) {
                params.push(name, crate::ops::RawValue::Unevaled);
            } else {
                proof {
                    assert(decreases_to!(call => call.args));
                    assert(decreases_to!(call.args => call.args@));
                    assert(decreases_to!(call.args@ => call.args@[k as int]));
                    assert(decreases_to!(call.args@[k as int] => call.args@[k as int].1));
                }
                match self.expr(&args[k].1) {
                    Ok(v) => {
                        params.push(name, crate::ops::RawValue::Evaled(v));
                    },
                    Err(e) => {
                        proof {
                            assert(!has_local(av[k as int].1));
                            assert(pre_eval(env, av, k as int, crate::ops::pre_of(params.args@)) == Err::<Seq<Option<VModel>>, Failure>(e@));
                            assert(call@.args == av);
                        }
                        return Err(e);
                    },
                }
            }
            proof {
                assert(params.args@.drop_last() =~= before);
                assert(crate::ops::pre_of(params.args@) =~= crate::ops::pre_of(before).push(
                    match params.args@[k as int].1 {
                        crate::ops::RawValue::Evaled(v) => Some(v@),
                        crate::ops::RawValue::Unevaled => None,
                    },
                ));
            }
            k += 1;
        }
        let ghost pre = crate::ops::pre_of(params.args@);
        let mut pipe = crate::ops::Pipe::new(items, params);
        let mut out = crate::ops::Pipe::new(Vec::new(), crate::ops::ParamList::new(Vec::new()));
        proof {
            assert(views(Seq::<Value>::empty()) =~= Seq::<VModel>::empty());
            assert(decreases_to!(call => call.args));
        }
        let res = match kind {
            OpKind::First => {
                let op = crate::ops::FirstOperator {};
                op.run(&mut pipe, &mut out, self, args)
            },
            OpKind::Filter => {
                let op = crate::ops::FilterOperator {};
                op.run(&mut pipe, &mut out, self, args)
            },
        };
        match res {
            Ok(()) => {
                let vals = out.into_values();
                proof {
                    lemma_views(vals@);
                }
                Ok(Value::List(vals))
            },
            Err(e) => Err(e),
        }
    }
}

proof fn lemma_field_index(f: Seq<(Seq<char>, VModel)>, k: Seq<char>, j: int)
    requires
        0 <= j <= f.len(),
    ensures
        field_index(f, k, j) matches Some(x) ==> j <= x < f.len() && f[x].0 == k && forall|y: int| j <= y < x ==> f[y].0 != k,
        field_index(f, k, j) is None ==> forall|y: int| j <= y < f.len() ==> f[y].0 != k,
    decreases f.len() - j,
{
    if j < f.len() {
        lemma_field_index(f, k, j + 1);
    }
}

proof fn lemma_field_index_first(f: Seq<(Seq<char>, VModel)>, k: Seq<char>, j: int)
    requires
        0 <= j < f.len(),
        f[j].0 == k,
        forall|y: int| 0 <= y < j ==> f[y].0 != k,
    ensures
        field_index(f, k, 0) == Some(j),
{
    lemma_field_index(f, k, 0);
    if field_index(f, k, 0) != Some(j) {
        let x = field_index(f, k, 0)->0;
        assert(x < j || x > j);
    }
}

proof fn lemma_field_index_none(f: Seq<(Seq<char>, VModel)>, k: Seq<char>)
    requires
        forall|y: int| 0 <= y < f.len() ==> f[y].0 != k,
    ensures
        field_index(f, k, 0) is None,
{
    lemma_field_index(f, k, 0);
}

impl Eval {
    /// A statement: evaluates its body and binds the value to its name, if
    /// it has one, in the innermost scope.
    pub fn visit_statement(&mut self, variable: &Option<Token>, body: &Ast) -> (r: Result<Value, Error>)
        requires
            old(self).environment.wf(),
        ensures
            final(self).environment.wf(),
            (result_view(r), final(self).environment@) == eval_stmt(
                old(self).environment@,
                AModel::Statement(
                    match variable {
                        Some(t) => Some(t@),
                        None => None,
                    },
                    Box::new(body@),
                ),
            ),
            r matches Ok(v) ==> model_wf(v@),
    {
        let result = match self.expr(body) {
            Ok(v) => v,
            Err(e) => {
                return Err(e);
            },
        };
        match variable {
            Some(token) => {
                let copy = result.deep_copy();
                match self.environment.define(token.lexeme.as_str(), copy) {
                    Ok(()) => Ok(result),
                    Err(e) => Err(e),
                }
            },
            None => Ok(result),
        }
    }

    /// A query: runs its statements in order in this evaluator's environment;
    /// the value is the last statement's. A query with no statement is an error.
    pub fn visit_query(&mut self, statements: &Vec<Ast>) -> (r: Result<Value, Error>)
        requires
            old(self).environment.wf(),
        ensures
            final(self).environment.wf(),
            (result_view(r), final(self).environment@) == eval_top(old(self).environment@, AModel::Query(ast_views(statements@))),
            r matches Ok(v) ==> model_wf(v@),
    {
        proof {
            lemma_ast_views(statements@);
        }
        let ghost q = ast_views(statements@);
        if statements.len() == 0 {
            return Err(Error::EmptyQuery);
        }
        let mut last = match self.visit_item(&statements[0]) {
            Ok(v) => v,
            Err(e) => {
                return Err(e);
            },
        };
        let mut i: usize = 1;
        while i < statements.len()
            invariant
                1 <= i <= statements@.len(),
                q == ast_views(statements@),
                q.len() == statements@.len(),
                forall|k: int| 0 <= k < statements@.len() ==> #[trigger] q[k] == statements@[k]@,
                self.environment.wf(),
                model_wf(last@),
                eval_stmts(self.environment@, q, i as int, last@) == eval_top(old(self).environment@, AModel::Query(q)),
            decreases statements@.len() - i,
        {
            last = match self.visit_item(&statements[i]) {
                Ok(v) => v,
                Err(e) => {
                    return Err(e);
                },
            };
            i += 1;
        }
        Ok(last)
    }

    /// One item of a query: a statement, or an expression.
    fn visit_item(&mut self, ast: &Ast) -> (r: Result<Value, Error>)
        requires
            old(self).environment.wf(),
        ensures
            final(self).environment.wf(),
            (result_view(r), final(self).environment@) == eval_stmt(old(self).environment@, ast@),
            r matches Ok(v) ==> model_wf(v@),
    {
        match ast {
            Ast::Statement(variable, body) => self.visit_statement(variable, body),
            _ => self.expr(ast),
        }
    }

    /// Evaluates a query, a statement or an expression (see `eval_top`).
    pub fn visit(&mut self, ast: &Ast) -> (r: Result<Value, Error>)
        requires
            old(self).environment.wf(),
        ensures
            final(self).environment.wf(),
            (result_view(r), final(self).environment@) == eval_top(old(self).environment@, ast@),
            r matches Ok(v) ==> model_wf(v@),
    {
        match ast {
            Ast::Query(statements) => {
                assert(ast@ == AModel::Query(ast_views(statements@)));
                self.visit_query(statements)
            },
            Ast::Statement(variable, body) => self.visit_statement(variable, body),
            _ => self.expr(ast),
        }
    }
}


/// The value of the `where` argument for element `e`, if its arguments resolve.
pub open spec fn where_of(
    env: Seq<ScopeModel>,
    args: Seq<(TokView, AModel)>,
    pre: Seq<Option<VModel>>,
    e: VModel,
) -> Option<VModel> {
    match row_args(env, args, pre, e, 0, Seq::empty()) {
        Ok(ps) => pget(ps, where_name(), 0),
        Err(_) => None,
    }
}

/// `first` hands on the front element of a non-empty input, as a list of one.
pub proof fn lemma_first_takes_front(
    env: Seq<ScopeModel>,
    args: Seq<(TokView, AModel)>,
    pre: Seq<Option<VModel>>,
    input: Seq<VModel>,
)
    requires
        input.len() > 0,
        row_args(env, args, pre, input[0], 0, Seq::empty()) is Ok,
    ensures
        first_spec(env, args, pre, input) == Ok::<VModel, Failure>(VModel::List(seq![input[0]])),
{
}

proof fn lemma_filter_from(
    env: Seq<ScopeModel>,
    args: Seq<(TokView, AModel)>,
    pre: Seq<Option<VModel>>,
    input: Seq<VModel>,
    i: int,
    acc: Seq<VModel>,
)
    requires
        0 <= i <= input.len(),
        forall|k: int| 0 <= k < input.len() ==> where_of(env, args, pre, #[trigger] input[k]) matches Some(VModel::Bool(_)),
    ensures
        filter_from(env, args, pre, input, i, acc) == Ok::<VModel, Failure>(VModel::List(
            acc + input.subrange(i, input.len() as int).filter(|e: VModel| where_of(env, args, pre, e) == Some(VModel::Bool(true))),
        )),
    decreases input.len() - i,
{
    let keep = |e: VModel| where_of(env, args, pre, e) == Some(VModel::Bool(true));
    let rest = input.subrange(i, input.len() as int);
    if i == input.len() {
        reveal(Seq::filter);
        assert(rest.filter(keep) =~= Seq::<VModel>::empty());
        assert(acc + rest.filter(keep) =~= acc);
    } else {
        let x = input[i];
        let tail = input.subrange(i + 1, input.len() as int);
        assert(rest =~= seq![x] + tail);
        Seq::filter_distributes_over_add(seq![x], tail, keep);
        reveal(Seq::filter);
        assert(seq![x].drop_last() =~= Seq::<VModel>::empty());
        assert(Seq::<VModel>::empty().filter(keep) =~= Seq::<VModel>::empty());
        assert(where_of(env, args, pre, input[i]) matches Some(VModel::Bool(_)));
        if keep(x) {
            assert(seq![x].filter(keep) =~= seq![x]);
            lemma_filter_from(env, args, pre, input, i + 1, acc.push(x));
            assert(acc.push(x) + tail.filter(keep) =~= acc + (seq![x] + tail.filter(keep)));
        } else {
            assert(seq![x].filter(keep) =~= Seq::<VModel>::empty());
            lemma_filter_from(env, args, pre, input, i + 1, acc);
            assert(Seq::<VModel>::empty() + tail.filter(keep) =~= tail.filter(keep));
        }
    }
}

/// `filter` keeps exactly the elements whose `where` argument is `true`, in
/// the order they came in.
pub proof fn lemma_filter_keeps_order(
    env: Seq<ScopeModel>,
    args: Seq<(TokView, AModel)>,
    pre: Seq<Option<VModel>>,
    input: Seq<VModel>,
)
    requires
        forall|k: int| 0 <= k < input.len() ==> where_of(env, args, pre, #[trigger] input[k]) matches Some(VModel::Bool(_)),
    ensures
        filter_from(env, args, pre, input, 0, Seq::empty()) == Ok::<VModel, Failure>(VModel::List(
            input.filter(|e: VModel| where_of(env, args, pre, e) == Some(VModel::Bool(true))),
        )),
{
    lemma_filter_from(env, args, pre, input, 0, Seq::empty());
    assert(input.subrange(0, input.len() as int) =~= input);
    let keep = |e: VModel| where_of(env, args, pre, e) == Some(VModel::Bool(true));
    assert(Seq::<VModel>::empty() + input.filter(keep) =~= input.filter(keep));
}

} // verus!
