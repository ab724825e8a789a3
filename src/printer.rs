use vstd::prelude::*;
use vstd::string::StringExecFns;
use itertools::Itertools;
use vstd::multiset::Multiset;
use crate::ast::{
    arg_views, ast_views, call_views, lemma_arg_views, lemma_ast_views, lemma_call_views, tok_views,
    AModel, Ast, CallModel, OpCall,
};
use crate::lexer::{TokView, Token};

verus! {

/// `a` comes before `b` in the order of `str`: by code points, a proper
/// prefix first.
pub open spec fn str_lt(a: Seq<char>, b: Seq<char>) -> bool
    decreases a.len(),
{
    if a.len() == 0 {
        b.len() > 0
    } else if b.len() == 0 {
        false
    } else if (a[0] as u32) < (b[0] as u32) {
        true
    } else if (a[0] as u32) > (b[0] as u32) {
        false
    } else {
        str_lt(a.drop_first(), b.drop_first())
    }
}

pub open spec fn sorted_strs(s: Seq<Seq<char>>) -> bool {
    forall|i: int, j: int| 0 <= i < j < s.len() ==> !str_lt(#[trigger] s[j], #[trigger] s[i])
}

pub open spec fn str_views(s: Seq<String>) -> Seq<Seq<char>> {
    s.map_values(|x: String| x@)
}

/// Relies on `itertools::Itertools::sorted` (which collects and calls
/// `Vec::sort`): the same strings, in ascending order of `str`. `str` orders
/// by UTF-8 bytes, which order as the code points do: the order `str_lt` states.
#[verifier::external_body]
fn sorted_strings(v: Vec<String>) -> (r: Vec<String>)
    ensures
        str_views(r@).to_multiset() == str_views(v@).to_multiset(),
        sorted_strs(str_views(r@)),
{
    v.into_iter().sorted().collect()
}

/// `parts` in order with `sep` between each two.
pub open spec fn join(parts: Seq<Seq<char>>, sep: Seq<char>) -> Seq<char>
    decreases parts.len(),
{
    if parts.len() == 0 {
        Seq::empty()
    } else if parts.len() == 1 {
        parts[0]
    } else {
        join(parts.drop_last(), sep) + sep + parts.last()
    }
}

/// Relies on `itertools::Itertools::join`: each string in order, with `sep`
/// between each two.
#[verifier::external_body]
fn join_strings(v: &Vec<String>, sep: &str) -> (r: String)
    ensures
        r@ == join(str_views(v@), sep@),
{
    v.iter().join(sep)
}

/// The sorted arrangement of the strings `m` (there is only one: see
/// `lemma_sorted_unique`).
pub open spec fn sort_of(m: Multiset<Seq<char>>) -> Seq<Seq<char>> {
    choose|r: Seq<Seq<char>>| r.to_multiset() == m && sorted_strs(r)
}

/// The rendering of a syntax tree, in the query syntax itself: every binary
/// and unary operation in parentheses (so the text parses back to the same
/// tree), record fields and operator arguments sorted.
pub open spec fn print(a: AModel) -> Seq<char>
    decreases a, 0int,
{
    match a {
        AModel::Binary(l, op, r) => "("@ + print(*l) + " "@ + op.text + " "@ + print(*r) + ")"@,
        AModel::Grouping(x) => "("@ + print(*x) + ")"@,
        AModel::Unary(op, x) => "("@ + op.text + " "@ + print(*x) + ")"@,
        AModel::Atom(t) => t.text,
        AModel::List(l) => "["@ + join(print_all(l), ", "@) + "]"@,
        AModel::Record(names, vals) => "{"@ + join(sort_of(field_strs(names, vals).to_multiset()), ", "@) + "}"@,
        AModel::OpExp(root, calls) => if calls.len() == 0 {
            print(*root)
        } else {
            print(*root) + " | "@ + join(call_strs(calls), " | "@)
        },
        AModel::Statement(n, b) => match n {
            Some(t) => t.text + " = "@ + print(*b),
            None => print(*b),
        },
        AModel::Query(q) => join(print_all(q), ";\n"@),
    }
}

pub open spec fn print_all(s: Seq<AModel>) -> Seq<Seq<char>>
    decreases s, 1int,
{
    if s.len() == 0 {
        Seq::empty()
    } else {
        print_all(s.subrange(0, s.len() - 1)).push(print(s[s.len() - 1]))
    }
}

/// `name=value` for each field.
pub open spec fn field_strs(names: Seq<TokView>, vals: Seq<AModel>) -> Seq<Seq<char>>
    decreases vals, 1int,
{
    if vals.len() == 0 || names.len() == 0 {
        Seq::empty()
    } else {
        let n = if names.len() < vals.len() { names.len() } else { vals.len() };
        field_strs(names.subrange(0, n - 1), vals.subrange(0, n - 1)).push(
            names[n - 1].text + "="@ + print(vals[n - 1]),
        )
    }
}

/// `name=value` for each argument.
pub open spec fn arg_strs(args: Seq<(TokView, AModel)>) -> Seq<Seq<char>>
    decreases args, 1int,
{
    if args.len() == 0 {
        Seq::empty()
    } else {
        arg_strs(args.subrange(0, args.len() - 1)).push(
            args[args.len() - 1].0.text + "="@ + print(args[args.len() - 1].1),
        )
    }
}

pub open spec fn path_strs(path: Seq<TokView>) -> Seq<Seq<char>> {
    path.map_values(|t: TokView| t.text)
}

/// `path(args)` for each call, with the arguments sorted.
pub open spec fn call_strs(calls: Seq<CallModel>) -> Seq<Seq<char>>
    decreases calls, 2int,
{
    if calls.len() == 0 {
        Seq::empty()
    } else {
        let c = calls[calls.len() - 1];
        call_strs(calls.subrange(0, calls.len() - 1)).push(
            join(path_strs(c.path), "."@) + "("@ + join(sort_of(arg_strs(c.args).to_multiset()), ", "@) + ")"@,
        )
    }
}

proof fn lemma_char_cast(c: char, d: char)
    ensures
        (c as u32) == (d as u32) ==> c == d,
{
}

proof fn lemma_str_lt_irreflexive(a: Seq<char>)
    ensures
        !str_lt(a, a),
    decreases a.len(),
{
    if a.len() > 0 {
        lemma_str_lt_irreflexive(a.drop_first());
    }
}

proof fn lemma_str_lt_asymmetric(a: Seq<char>, b: Seq<char>)
    ensures
        str_lt(a, b) ==> !str_lt(b, a),
    decreases a.len(),
{
    if a.len() > 0 && b.len() > 0 && (a[0] as u32) == (b[0] as u32) {
        lemma_str_lt_asymmetric(a.drop_first(), b.drop_first());
    }
}

/// Two different strings are ordered one way or the other.
proof fn lemma_str_lt_total(a: Seq<char>, b: Seq<char>)
    ensures
        a != b ==> str_lt(a, b) || str_lt(b, a),
    decreases a.len(),
{
    if a.len() > 0 && b.len() > 0 {
        lemma_char_cast(a[0], b[0]);
    }
    if a.len() > 0 && b.len() > 0 && a[0] == b[0] {
        lemma_str_lt_total(a.drop_first(), b.drop_first());
        if a != b {
            assert(a =~= seq![a[0]] + a.drop_first());
            assert(b =~= seq![b[0]] + b.drop_first());
        }
    } else if a.len() == 0 && b.len() == 0 {
        assert(a =~= b);
    }
}

/// A multiset of strings has one sorted arrangement.
pub proof fn lemma_sorted_unique(a: Seq<Seq<char>>, b: Seq<Seq<char>>)
    requires
        sorted_strs(a),
        sorted_strs(b),
        a.to_multiset() == b.to_multiset(),
    ensures
        a == b,
    decreases a.len(),
{
    a.to_multiset_ensures();
    b.to_multiset_ensures();
    if a.len() == 0 {
        assert(a =~= b);
    } else {
        assert(b.to_multiset().count(a[0]) > 0);
        assert(b.contains(a[0]));
        let j = choose|j: int| 0 <= j < b.len() && b[j] == a[0];
        assert(a.to_multiset().count(b[0]) > 0);
        assert(a.contains(b[0]));
        let i = choose|i: int| 0 <= i < a.len() && a[i] == b[0];
        if i > 0 {
            assert(!str_lt(a[i], a[0]));
        } else {
            lemma_str_lt_irreflexive(a[0]);
        }
        if j > 0 {
            assert(!str_lt(b[j], b[0]));
        } else {
            lemma_str_lt_irreflexive(b[0]);
        }
        lemma_str_lt_total(a[0], b[0]);
        assert(a[0] == b[0]);
        let a2 = a.remove(0);
        let b2 = b.remove(0);
        assert(a2.to_multiset() == b2.to_multiset());
        assert(sorted_strs(a2)) by {
            assert forall|x: int, y: int| 0 <= x < y < a2.len() implies !str_lt(#[trigger] a2[y], #[trigger] a2[x]) by {
                assert(a2[x] == a[x + 1] && a2[y] == a[y + 1]);
            }
        }
        assert(sorted_strs(b2)) by {
            assert forall|x: int, y: int| 0 <= x < y < b2.len() implies !str_lt(#[trigger] b2[y], #[trigger] b2[x]) by {
                assert(b2[x] == b[x + 1] && b2[y] == b[y + 1]);
            }
        }
        lemma_sorted_unique(a2, b2);
        assert(a =~= b) by {
            assert forall|x: int| 0 <= x < a.len() implies a[x] == b[x] by {
                if x > 0 {
                    assert(a[x] == a2[x - 1] && b[x] == b2[x - 1]);
                }
            }
        }
    }
}

/// A sorted arrangement of `s` is `sort_of` its multiset.
pub proof fn lemma_sort_spec(s: Seq<Seq<char>>, r: Seq<Seq<char>>)
    requires
        r.to_multiset() == s.to_multiset(),
        sorted_strs(r),
    ensures
        sort_of(s.to_multiset()) == r,
{
    let c = sort_of(s.to_multiset());
    assert(c.to_multiset() == s.to_multiset() && sorted_strs(c));
    lemma_sorted_unique(c, r);
}

/// A record prints the same whatever the order of its fields: its rendering
/// depends only on which `name=value` entries it has, not on their order.
pub proof fn lemma_record_print_order(n1: Seq<TokView>, v1: Seq<AModel>, n2: Seq<TokView>, v2: Seq<AModel>)
    requires
        field_strs(n1, v1).to_multiset() == field_strs(n2, v2).to_multiset(),
    ensures
        print(AModel::Record(n1, v1)) == print(AModel::Record(n2, v2)),
{
}

/// Renders syntax trees as text (see `print`).
pub struct Printer {}

impl Printer {
    /// The rendering of each tree, in order.
    fn print_each(&self, l: &Vec<Ast>) -> (r: Vec<String>)
        ensures
            str_views(r@) == print_all(ast_views(l@)),
        decreases l, 1int,
    {
        proof {
            lemma_ast_views(l@);
        }
        let ghost lv = ast_views(l@);
        let mut out: Vec<String> = Vec::new();
        let mut i: usize = 0;
        proof {
            assert(str_views(out@) =~= print_all(lv.subrange(0, 0)));
        }
        while i < l.len()
            invariant
                lv == ast_views(l@),
                lv.len() == l@.len(),
                forall|k: int| 0 <= k < l@.len() ==> #[trigger] lv[k] == l@[k]@,
                i <= l@.len(),
                str_views(out@) == print_all(lv.subrange(0, i as int)),
            decreases l@.len() - i,
        {
            proof {
                assert(decreases_to!(l => l@));
                assert(decreases_to!(l@ => l@[i as int]));
            }
            let p = self.visit(&l[i]);
            out.push(p);
            proof {
                assert(lv.subrange(0, i + 1).subrange(0, i as int) =~= lv.subrange(0, i as int));
                assert(str_views(out@) =~= print_all(lv.subrange(0, i as int)).push(print(lv[i as int])));
            }
            i += 1;
        }
        proof {
            assert(lv.subrange(0, lv.len() as int) =~= lv);
        }
        out
    }

    pub fn visit_list(&self, list: &Vec<Ast>) -> (r: String)
        ensures
            r@ == "["@ + join(print_all(ast_views(list@)), ", "@) + "]"@,
        decreases list, 2int,
    {
        let items = self.print_each(list);
        let mut r = String::new();
        r.append("[");
        r.append(join_strings(&items, ", ").as_str());
        r.append("]");
        r
    }

    /// `name=value` for each field, sorted, between braces.
    pub fn visit_record(&self, names: &Vec<Token>, values: &Vec<Ast>) -> (r: String)
        ensures
            r@ == "{"@ + join(sort_of(field_strs(tok_views(names@), ast_views(values@)).to_multiset()), ", "@) + "}"@,
        decreases values, 1int,
    {
        proof {
            lemma_ast_views(values@);
        }
        let ghost nv = tok_views(names@);
        let ghost vv = ast_views(values@);
        let mut entries: Vec<String> = Vec::new();
        let mut i: usize = 0;
        proof {
            assert(str_views(entries@) =~= field_strs(nv.subrange(0, 0), vv.subrange(0, 0)));
        }
        while i < names.len() && i < values.len()
            invariant
                nv == tok_views(names@),
                vv == ast_views(values@),
                vv.len() == values@.len(),
                forall|k: int| 0 <= k < values@.len() ==> #[trigger] vv[k] == values@[k]@,
                i <= names@.len(),
                i <= values@.len(),
                str_views(entries@) == field_strs(nv.subrange(0, i as int), vv.subrange(0, i as int)),
            decreases values@.len() - i,
        {
            proof {
                assert(decreases_to!(values => values@));
                assert(decreases_to!(values@ => values@[i as int]));
            }
            let mut e = names[i].lexeme.clone();
            e.append("=");
            e.append(self.visit(&values[i]).as_str());
            entries.push(e);
            proof {
                let n2 = nv.subrange(0, i + 1);
                let v2 = vv.subrange(0, i + 1);
                assert(n2.subrange(0, i as int) =~= nv.subrange(0, i as int));
                assert(v2.subrange(0, i as int) =~= vv.subrange(0, i as int));
                assert(str_views(entries@) =~= field_strs(nv.subrange(0, i as int), vv.subrange(0, i as int)).push(
                    nv[i as int].text + "="@ + print(vv[i as int]),
                ));
                assert(field_strs(n2, v2) == field_strs(n2.subrange(0, i as int), v2.subrange(0, i as int)).push(
                    n2[i as int].text + "="@ + print(v2[i as int]),
                ));
            }
            i += 1;
        }
        proof {
            let m = i as int;
            if m > 0 {
                let n2 = nv.subrange(0, m);
                let v2 = vv.subrange(0, m);
                assert(n2.subrange(0, m - 1) =~= nv.subrange(0, m - 1));
                assert(v2.subrange(0, m - 1) =~= vv.subrange(0, m - 1));
                assert(field_strs(nv, vv) == field_strs(nv.subrange(0, m - 1), vv.subrange(0, m - 1)).push(
                    nv[m - 1].text + "="@ + print(vv[m - 1]),
                ));
                assert(field_strs(n2, v2) == field_strs(nv.subrange(0, m - 1), vv.subrange(0, m - 1)).push(
                    nv[m - 1].text + "="@ + print(vv[m - 1]),
                ));
            } else {
                assert(field_strs(nv, vv) =~= Seq::<Seq<char>>::empty());
            }
        }
        let ghost before = str_views(entries@);
        let sorted = sorted_strings(entries);
        proof {
            lemma_sort_spec(before, str_views(sorted@));
        }
        let mut r = String::new();
        r.append("{");
        r.append(join_strings(&sorted, ", ").as_str());
        r.append("}");
        r
    }

    /// `path(name=value, ...)` for one call, its arguments sorted.
    fn call_text(&self, call: &OpCall) -> (r: String)
        ensures
            r@ == join(path_strs(call@.path), "."@) + "("@ + join(sort_of(arg_strs(call@.args).to_multiset()), ", "@) + ")"@,
        decreases call, 1int,
    {
        let mut path: Vec<String> = Vec::new();
        let mut j: usize = 0;
        while j < call.path.len()
            invariant
                j <= call.path@.len(),
                str_views(path@) == path_strs(tok_views(call.path@.subrange(0, j as int))),
            decreases call.path@.len() - j,
        {
            let ghost before = path@;
            path.push(call.path[j].lexeme.clone());
            proof {
                assert(str_views(path@) =~= str_views(before).push(call.path@[j as int].lexeme@));
                assert(str_views(path@) =~= path_strs(tok_views(call.path@.subrange(0, j + 1))));
            }
            j += 1;
        }
        proof {
            assert(call.path@.subrange(0, call.path@.len() as int) =~= call.path@);
        }
        let args = &call.args;
        proof {
            lemma_arg_views(args@);
        }
        let ghost av = arg_views(args@);
        let mut entries: Vec<String> = Vec::new();
        let mut k: usize = 0;
        proof {
            assert(str_views(entries@) =~= arg_strs(av.subrange(0, 0)));
        }
        while k < args.len()
            invariant
                *args == call.args,
                av == arg_views(args@),
                av.len() == args@.len(),
                forall|y: int| 0 <= y < args@.len() ==> #[trigger] av[y] == (args@[y].0@, args@[y].1@),
                k <= args@.len(),
                str_views(entries@) == arg_strs(av.subrange(0, k as int)),
            decreases args@.len() - k,
        {
            proof {
                assert(decreases_to!(call => call.args));
                assert(decreases_to!(call.args => call.args@));
                assert(decreases_to!(call.args@ => call.args@[k as int]));
                assert(decreases_to!(call.args@[k as int] => call.args@[k as int].1));
            }
            let mut e = args[k].0.lexeme.clone();
            e.append("=");
            e.append(self.visit(&args[k].1).as_str());
            entries.push(e);
            proof {
                assert(av.subrange(0, k + 1).subrange(0, k as int) =~= av.subrange(0, k as int));
                assert(str_views(entries@) =~= arg_strs(av.subrange(0, k as int)).push(
                    av[k as int].0.text + "="@ + print(av[k as int].1),
                ));
            }
            k += 1;
        }
        proof {
            assert(av.subrange(0, av.len() as int) =~= av);
        }
        let ghost before = str_views(entries@);
        let sorted = sorted_strings(entries);
        proof {
            lemma_sort_spec(before, str_views(sorted@));
        }
        let mut r = join_strings(&path, ".");
        r.append("(");
        r.append(join_strings(&sorted, ", ").as_str());
        r.append(")");
        r
    }

    pub fn visit_opexp(&self, ast: &Ast) -> (r: String)
        requires
            ast is OpExp,
        ensures
            r@ == print(ast@),
        decreases ast, 1int,
    {
        let (root, calls) = match ast {
            Ast::OpExp(root, calls) => (root, calls),
            _ => {
                return String::new();
            },
        };
        assert(ast@ == AModel::OpExp(Box::new((**root)@), call_views(calls@)));
        proof {
            assert(decreases_to!(ast => calls));
            lemma_call_views(calls@);
        }
        let root_text = self.visit(&**root);
        self.pipeline_text(root_text, calls)
    }

    /// `root_text`, then ` | ` and each call, if there are calls.
    fn pipeline_text(&self, root_text: String, calls: &Vec<OpCall>) -> (r: String)
        ensures
            r@ == (if calls@.len() == 0 {
                root_text@
            } else {
                root_text@ + " | "@ + join(call_strs(call_views(calls@)), " | "@)
            }),
        decreases calls, 0int,
    {
        proof {
            lemma_call_views(calls@);
        }
        let ghost cv = call_views(calls@);
        if calls.len() == 0 {
            return root_text;
        }
        let mut texts: Vec<String> = Vec::new();
        let mut i: usize = 0;
        proof {
            assert(str_views(texts@) =~= call_strs(cv.subrange(0, 0)));
        }
        while i < calls.len()
            invariant
                cv == call_views(calls@),
                cv.len() == calls@.len(),
                forall|k: int| 0 <= k < calls@.len() ==> #[trigger] cv[k] == calls@[k]@,
                i <= calls@.len(),
                str_views(texts@) == call_strs(cv.subrange(0, i as int)),
            decreases calls@.len() - i,
        {
            proof {
                assert(decreases_to!(calls => calls@));
                assert(decreases_to!(calls@ => calls@[i as int]));
            }
            texts.push(self.call_text(&calls[i]));
            proof {
                assert(cv.subrange(0, i + 1).subrange(0, i as int) =~= cv.subrange(0, i as int));
                assert(str_views(texts@) =~= call_strs(cv.subrange(0, i as int)).push(
                    join(path_strs(cv[i as int].path), "."@) + "("@ + join(sort_of(arg_strs(cv[i as int].args).to_multiset()), ", "@) + ")"@,
                ));
            }
            i += 1;
        }
        proof {
            assert(cv.subrange(0, cv.len() as int) =~= cv);
        }
        let mut r = root_text;
        r.append(" | ");
        r.append(join_strings(&texts, " | ").as_str());
        r
    }

    pub fn visit_statement(&self, variable: &Option<Token>, body: &Ast) -> (r: String)
        ensures
            r@ == match variable {
                Some(t) => t.lexeme@ + " = "@ + print(body@),
                None => print(body@),
            },
        decreases body, 3int,
    {
        match variable {
            Some(t) => {
                let mut r = t.lexeme.clone();
                r.append(" = ");
                r.append(self.visit(body).as_str());
                r
            },
            None => self.visit(body),
        }
    }

    /// The rendering of a tree (see `print`).
    pub fn visit(&self, ast: &Ast) -> (r: String)
        ensures
            r@ == print(ast@),
        decreases ast, 2int,
    {
        match ast {
            Ast::Binary { left, op, right } => {
                assert(ast@ == AModel::Binary(Box::new((**left)@), op@, Box::new((**right)@)));
                let mut r = String::new();
                r.append("(");
                r.append(self.visit(&**left).as_str());
                r.append(" ");
                r.append(op.lexeme.as_str());
                r.append(" ");
                r.append(self.visit(&**right).as_str());
                r.append(")");
                r
            },
            Ast::Grouping(inner) => {
                assert(ast@ == AModel::Grouping(Box::new((**inner)@)));
                let mut r = String::new();
                r.append("(");
                r.append(self.visit(&**inner).as_str());
                r.append(")");
                r
            },
            Ast::Unary(op, right) => {
                assert(ast@ == AModel::Unary(op@, Box::new((**right)@)));
                let mut r = String::new();
                r.append("(");
                r.append(op.lexeme.as_str());
                r.append(" ");
                r.append(self.visit(&**right).as_str());
                r.append(")");
                r
            },
            Ast::Atom(t) => {
                assert(ast@ == AModel::Atom(t@));
                t.lexeme.clone()
            },
            Ast::List(l) => {
                assert(ast@ == AModel::List(ast_views(l@)));
                self.visit_list(l)
            },
            Ast::Record(names, values) => {
                assert(ast@ == AModel::Record(tok_views(names@), ast_views(values@)));
                self.visit_record(names, values)
            },
            Ast::OpExp(..) => self.visit_opexp(ast),
            Ast::Statement(variable, body) => {
                assert(ast@ == AModel::Statement(
                    match variable {
                        Some(t) => Some(t@),
                        None => None,
                    },
                    Box::new((**body)@),
                ));
                self.visit_statement(variable, &**body)
            },
            Ast::Query(q) => {
                assert(ast@ == AModel::Query(ast_views(q@)));
                let items = self.print_each(q);
                join_strings(&items, ";\n")
            },
        }
    }
}

impl crate::ast::Visitor<String> for Printer {
    open spec fn result(&self, a: AModel, r: String) -> bool {
        r@ == print(a)
    }

    fn visit_binary(&self, left: &Ast, op: &Token, right: &Ast) -> (r: String) {
        let mut r = String::new();
        r.append("(");
        r.append(self.visit(left).as_str());
        r.append(" ");
        r.append(op.lexeme.as_str());
        r.append(" ");
        r.append(self.visit(right).as_str());
        r.append(")");
        r
    }

    fn visit_grouping(&self, inner: &Ast) -> (r: String) {
        let mut r = String::new();
        r.append("(");
        r.append(self.visit(inner).as_str());
        r.append(")");
        r
    }

    fn visit_unary(&self, op: &Token, right: &Ast) -> (r: String) {
        let mut r = String::new();
        r.append("(");
        r.append(op.lexeme.as_str());
        r.append(" ");
        r.append(self.visit(right).as_str());
        r.append(")");
        r
    }

    fn visit_atom(&self, t: &Token) -> (r: String) {
        t.lexeme.clone()
    }

    fn visit_list(&self, list: &Vec<Ast>) -> (r: String) {
        Printer::visit_list(self, list)
    }

    fn visit_record(&self, names: &Vec<Token>, values: &Vec<Ast>) -> (r: String) {
        Printer::visit_record(self, names, values)
    }

    fn visit_opexp(&self, root: &Ast, opcalls: &Vec<OpCall>) -> (r: String) {
        proof {
            lemma_call_views(opcalls@);
        }
        let root_text = self.visit(root);
        self.pipeline_text(root_text, opcalls)
    }

    fn visit_statement(&self, variable: &Option<Token>, body: &Ast) -> (r: String) {
        Printer::visit_statement(self, variable, body)
    }

    fn visit_query(&self, statements: &Vec<Ast>) -> (r: String) {
        let items = self.print_each(statements);
        join_strings(&items, ";\n")
    }
}

} // verus!
