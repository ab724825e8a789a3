use vstd::prelude::*;
use crate::lexer::{TokView, Token};

verus! {

/// One operator call of a pipeline: a dotted path and named arguments.
pub struct OpCall {
    pub path: Vec<Token>,
    pub args: Vec<(Token, Ast)>,
}

/// A syntax tree node.
pub enum Ast {
    Binary { left: Box<Ast>, op: Token, right: Box<Ast> },
    Grouping(Box<Ast>),
    Unary(Token, Box<Ast>),
    Atom(Token),
    List(Vec<Ast>),
    /// Field names and field values, in parallel.
    Record(Vec<Token>, Vec<Ast>),
    /// A root expression and the operator calls that its value flows through.
    OpExp(Box<Ast>, Vec<OpCall>),
    /// An optional binding name and a body.
    Statement(Option<Token>, Box<Ast>),
    Query(Vec<Ast>),
}

pub struct CallModel {
    pub path: Seq<TokView>,
    pub args: Seq<(TokView, AModel)>,
}

/// The content of a syntax tree.
pub enum AModel {
    Binary(Box<AModel>, TokView, Box<AModel>),
    Grouping(Box<AModel>),
    Unary(TokView, Box<AModel>),
    Atom(TokView),
    List(Seq<AModel>),
    Record(Seq<TokView>, Seq<AModel>),
    OpExp(Box<AModel>, Seq<CallModel>),
    Statement(Option<TokView>, Box<AModel>),
    Query(Seq<AModel>),
}

pub open spec fn tok_views(s: Seq<Token>) -> Seq<TokView> {
    s.map_values(|t: Token| t@)
}

pub open spec fn ast_views(s: Seq<Ast>) -> Seq<AModel>
    decreases s,
{
    if s.len() == 0 {
        Seq::empty()
    } else {
        ast_views(s.drop_last()).push(s.last().view())
    }
}

pub open spec fn arg_views(s: Seq<(Token, Ast)>) -> Seq<(TokView, AModel)>
    decreases s,
{
    if s.len() == 0 {
        Seq::empty()
    } else {
        arg_views(s.drop_last()).push((s.last().0@, s.last().1.view()))
    }
}

pub open spec fn call_views(s: Seq<OpCall>) -> Seq<CallModel>
    decreases s,
{
    if s.len() == 0 {
        Seq::empty()
    } else {
        call_views(s.drop_last()).push(s.last().view())
    }
}

impl View for OpCall {
    type V = CallModel;

    open spec fn view(&self) -> CallModel
        decreases self,
    {
        CallModel { path: tok_views(self.path@), args: arg_views(self.args@) }
    }
}

impl View for Ast {
    type V = AModel;

    open spec fn view(&self) -> AModel
        decreases self,
    {
        match self {
            Ast::Binary { left, op, right } => AModel::Binary(
                Box::new((**left).view()),
                op@,
                Box::new((**right).view()),
            ),
            Ast::Grouping(a) => AModel::Grouping(Box::new((**a).view())),
            Ast::Unary(t, a) => AModel::Unary(t@, Box::new((**a).view())),
            Ast::Atom(t) => AModel::Atom(t@),
            Ast::List(l) => AModel::List(ast_views(l@)),
            Ast::Record(n, v) => AModel::Record(tok_views(n@), ast_views(v@)),
            Ast::OpExp(root, calls) => AModel::OpExp(Box::new((**root).view()), call_views(calls@)),
            Ast::Statement(n, b) => AModel::Statement(
                match n {
                    Some(t) => Some(t@),
                    None => None,
                },
                Box::new((**b).view()),
            ),
            Ast::Query(q) => AModel::Query(ast_views(q@)),
        }
    }
}

pub proof fn lemma_ast_views(s: Seq<Ast>)
    ensures
        ast_views(s).len() == s.len(),
        forall|i: int| 0 <= i < s.len() ==> #[trigger] ast_views(s)[i] == s[i]@,
    decreases s.len(),
{
    if s.len() > 0 {
        lemma_ast_views(s.drop_last());
        assert(ast_views(s) == ast_views(s.drop_last()).push(s.last().view()));
    } else {
        assert(ast_views(s) == Seq::<AModel>::empty());
    }
}

pub proof fn lemma_arg_views(s: Seq<(Token, Ast)>)
    ensures
        arg_views(s).len() == s.len(),
        forall|i: int| 0 <= i < s.len() ==> #[trigger] arg_views(s)[i] == (s[i].0@, s[i].1@),
    decreases s.len(),
{
    if s.len() > 0 {
        lemma_arg_views(s.drop_last());
        assert(arg_views(s) == arg_views(s.drop_last()).push((s.last().0@, s.last().1.view())));
    } else {
        assert(arg_views(s) == Seq::<(TokView, AModel)>::empty());
    }
}

pub proof fn lemma_call_views(s: Seq<OpCall>)
    ensures
        call_views(s).len() == s.len(),
        forall|i: int| 0 <= i < s.len() ==> #[trigger] call_views(s)[i] == s[i]@,
    decreases s.len(),
{
    if s.len() > 0 {
        lemma_call_views(s.drop_last());
        assert(call_views(s) == call_views(s.drop_last()).push(s.last().view()));
    } else {
        assert(call_views(s) == Seq::<CallModel>::empty());
    }
}

pub open spec fn opt_tok_view(t: Option<Token>) -> Option<TokView> {
    match t {
        Some(x) => Some(x@),
        None => None,
    }
}

/// A traversal of syntax trees, with one method per kind of node; `result`
/// states what the traversal gives for a tree.
pub trait Visitor<T> {
    spec fn result(&self, a: AModel, r: T) -> bool;

    fn visit_binary(&self, left: &Ast, op: &Token, right: &Ast) -> (r: T)
        ensures
            self.result(AModel::Binary(Box::new(left@), op@, Box::new(right@)), r),
    ;

    fn visit_grouping(&self, inner: &Ast) -> (r: T)
        ensures
            self.result(AModel::Grouping(Box::new(inner@)), r),
    ;

    fn visit_unary(&self, op: &Token, right: &Ast) -> (r: T)
        ensures
            self.result(AModel::Unary(op@, Box::new(right@)), r),
    ;

    fn visit_atom(&self, t: &Token) -> (r: T)
        ensures
            self.result(AModel::Atom(t@), r),
    ;

    fn visit_list(&self, list: &Vec<Ast>) -> (r: T)
        ensures
            self.result(AModel::List(ast_views(list@)), r),
    ;

    fn visit_record(&self, names: &Vec<Token>, values: &Vec<Ast>) -> (r: T)
        ensures
            self.result(AModel::Record(tok_views(names@), ast_views(values@)), r),
    ;

    fn visit_opexp(&self, root: &Ast, opcalls: &Vec<OpCall>) -> (r: T)
        ensures
            self.result(AModel::OpExp(Box::new(root@), call_views(opcalls@)), r),
    ;

    fn visit_statement(&self, variable: &Option<Token>, body: &Ast) -> (r: T)
        ensures
            self.result(AModel::Statement(opt_tok_view(*variable), Box::new(body@)), r),
    ;

    fn visit_query(&self, statements: &Vec<Ast>) -> (r: T)
        ensures
            self.result(AModel::Query(ast_views(statements@)), r),
    ;
}

impl Ast {
    /// Hands the node to the visitor's method for its kind.
    pub fn accept<T, V: Visitor<T>>(&self, visitor: &V) -> (r: T)
        ensures
            visitor.result(self@, r),
    {
        match self {
            Ast::Binary { left, op, right } => visitor.visit_binary(left, op, right),
            Ast::Grouping(inner) => visitor.visit_grouping(inner),
            Ast::Unary(op, right) => visitor.visit_unary(op, right),
            Ast::Atom(t) => visitor.visit_atom(t),
            Ast::List(l) => visitor.visit_list(l),
            Ast::Record(names, values) => visitor.visit_record(names, values),
            Ast::OpExp(root, opcalls) => visitor.visit_opexp(root, opcalls),
            Ast::Statement(variable, body) => {
                assert(self@ == AModel::Statement(opt_tok_view(*variable), Box::new((**body)@)));
                visitor.visit_statement(variable, body)
            },
            Ast::Query(statements) => visitor.visit_query(statements),
        }
    }
}

} // verus!
