use vstd::prelude::*;
use vstd::string::StringExecFns;
use crate::ast::{arg_views, lemma_arg_views, AModel, Ast};
use crate::environment::ScopeModel;
use crate::error::{Error, Failure};
use crate::eval::{filter_from, first_spec, pget, row_args, where_name, Eval};
use crate::lexer::{TokView, Token};
use crate::value::{field_views, lemma_field_views, lemma_views, model_wf, views, Type, VModel, Value};

verus! {

/// The index of the first entry named `k`, from `j` on.
pub open spec fn index_of<T>(s: Seq<(String, T)>, k: Seq<char>, j: int) -> Option<int>
    decreases s.len() - j,
{
    if j < 0 || j >= s.len() {
        None
    } else if s[j].0@ == k {
        Some(j)
    } else {
        index_of(s, k, j + 1)
    }
}

/// Named parameters, in order.
pub struct ParamList<T> {
    pub args: Vec<(String, T)>,
}

impl<T> ParamList<T> {
    pub fn new(args: Vec<(String, T)>) -> (r: ParamList<T>)
        ensures
            r.args@ == args@,
    {
        ParamList { args }
    }

    pub fn push(&mut self, name: String, value: T)
        ensures
            final(self).args@ == old(self).args@.push((name, value)),
    {
        self.args.push((name, value))
    }

    /// The value of the first parameter named `name`.
    pub fn get(&self, name: &str) -> (r: Option<&T>)
        ensures
            r == match index_of(self.args@, name@, 0) {
                Some(j) => Some(&self.args@[j].1),
                None => None,
            },
    {
        let key = String::from_str(name);
        let mut j: usize = 0;
        while j < self.args.len()
            invariant
                j <= self.args@.len(),
                key@ == name@,
                index_of(self.args@, name@, 0) == index_of(self.args@, name@, j as int),
            decreases self.args@.len() - j,
        {
            if self.args[j].0 == key {
                return Some(&self.args[j].1);
            }
            j += 1;
        }
        None
    }
}

/// The values of a parameter list of values.
pub open spec fn param_values(p: ParamList<Value>) -> Seq<(Seq<char>, VModel)> {
    field_views(p.args@)
}

proof fn lemma_pget_index(a: Seq<(String, Value)>, n: Seq<char>, j: int)
    requires
        0 <= j <= a.len(),
    ensures
        pget(field_views(a), n, j) == match index_of(a, n, j) {
            Some(i) => Some(a[i].1@),
            None => None::<VModel>,
        },
    decreases a.len() - j,
{
    lemma_field_views(a);
    if j < a.len() {
        lemma_pget_index(a, n, j + 1);
    }
}

/// An operator argument: evaluated once, or to be evaluated for each element.
pub enum RawValue {
    Evaled(Value),
    Unevaled,
}

pub open spec fn raw_wf(r: RawValue) -> bool {
    match r {
        RawValue::Evaled(v) => model_wf(v@),
        RawValue::Unevaled => true,
    }
}

/// What the pipeline knows of each argument before it pulls: the value of an
/// argument evaluated once, `None` for one evaluated per element.
pub open spec fn pre_of(params: Seq<(String, RawValue)>) -> Seq<Option<VModel>> {
    params.map_values(
        |p: (String, RawValue)|
            match p.1 {
                RawValue::Evaled(v) => Some(v@),
                RawValue::Unevaled => None,
            },
    )
}

/// The declared interface of an operator.
pub struct Signature {
    pub namespace: String,
    pub name: String,
    pub docstring: String,
    pub input_t: Type,
    pub params_t: ParamList<Type>,
    pub return_t: Type,
    pub pure: bool,
}

/// Elements are pulled in batches of this size.
pub const BATCH_SIZE: usize = 64;

/// The input of one operator call: the elements not yet pulled, the call's
/// arguments, and what the operator has pushed.
pub struct Pipe {
    /// The elements not yet pulled, the next one last.
    input: Vec<Value>,
    params: ParamList<RawValue>,
    output: Vec<Value>,
}

impl Pipe {
    /// The elements not yet pulled, in order.
    pub closed spec fn remaining(&self) -> Seq<VModel> {
        views(self.input@).reverse()
    }

    pub closed spec fn pushed(&self) -> Seq<VModel> {
        views(self.output@)
    }

    pub closed spec fn params(&self) -> Seq<(String, RawValue)> {
        self.params.args@
    }

    pub closed spec fn wf(&self) -> bool {
        &&& forall|i: int| 0 <= i < self.input@.len() ==> model_wf(#[trigger] self.input@[i]@)
        &&& forall|i: int| 0 <= i < self.params.args@.len() ==> raw_wf((#[trigger] self.params.args@[i]).1)
        &&& forall|i: int| 0 <= i < self.output@.len() ==> model_wf(#[trigger] self.output@[i]@)
    }

    /// The arguments of the pipe line up with the call's arguments `args`.
    pub open spec fn aligned(&self, args: Seq<(Token, Ast)>) -> bool {
        &&& self.params().len() == args.len()
        &&& forall|k: int| 0 <= k < args.len() ==> (#[trigger] self.params()[k]).0@ == args[k].0@.text
    }

    pub fn new(input: Vec<Value>, params: ParamList<RawValue>) -> (r: Pipe)
        requires
            forall|i: int| 0 <= i < input@.len() ==> model_wf(#[trigger] input@[i]@),
            forall|i: int| 0 <= i < params.args@.len() ==> raw_wf((#[trigger] params.args@[i]).1),
        ensures
            r.wf(),
            r.remaining() == views(input@),
            r.params() == params.args@,
            r.pushed() == Seq::<VModel>::empty(),
    {
        let mut input = input;
        let ghost orig = input@;
        let mut buf: Vec<Value> = Vec::new();
        while input.len() > 0
            invariant
                input@ == orig.subrange(0, input@.len() as int),
                input@.len() <= orig.len(),
                buf@.len() + input@.len() == orig.len(),
                forall|k: int| 0 <= k < buf@.len() ==> #[trigger] buf@[k] == orig[orig.len() - 1 - k],
            decreases input@.len(),
        {
            let v = input.pop().unwrap();
            buf.push(v);
        }
        proof {
            lemma_views(buf@);
            lemma_views(orig);
            assert(views(buf@).reverse() =~= views(orig));
            assert(views(Seq::<Value>::empty()) =~= Seq::<VModel>::empty());
            assert forall|i: int| 0 <= i < buf@.len() implies model_wf(#[trigger] buf@[i]@) by {
                assert(buf@[i] == orig[orig.len() - 1 - i]);
            }
        }
        Pipe { input: buf, params, output: Vec::new() }
    }

    pub fn is_empty(&self) -> (r: bool)
        ensures
            r == (self.remaining().len() == 0),
    {
        proof {
            lemma_views(self.input@);
        }
        self.input.len() == 0
    }

    /// Hands a result to the pipe's output.
    pub fn push(&mut self, value: Value)
        requires
            old(self).wf(),
            model_wf(value@),
        ensures
            final(self).wf(),
            final(self).pushed() == old(self).pushed().push(value@),
            final(self).remaining() == old(self).remaining(),
            final(self).params() == old(self).params(),
    {
        let ghost before = self.output@;
        self.output.push(value);
        proof {
            assert(self.output@.drop_last() =~= before);
        }
    }

    /// The values pushed to the pipe, in order.
    pub fn into_values(self) -> (r: Vec<Value>)
        requires
            self.wf(),
        ensures
            views(r@) == self.pushed(),
            forall|i: int| 0 <= i < r@.len() ==> model_wf(#[trigger] r@[i]@),
    {
        self.output
    }
}

} // verus!

verus! {

impl Pipe {
    /// The arguments for element `elem` (see `row_args`).
    fn row(&self, eval: &mut Eval, args: &Vec<(Token, Ast)>, elem: &Value) -> (r: Result<ParamList<Value>, Error>)
        requires
            self.wf(),
            self.aligned(args@),
            old(eval).environment.wf(),
            model_wf(elem@),
        ensures
            final(eval).environment.wf(),
            final(eval).environment@ == old(eval).environment@,
            match row_args(old(eval).environment@, arg_views(args@), pre_of(self.params()), elem@, 0, Seq::empty()) {
                Ok(ps) => r matches Ok(pl) && param_values(pl) == ps && forall|i: int|
                    0 <= i < pl.args@.len() ==> model_wf(#[trigger] pl.args@[i].1@),
                Err(e) => r matches Err(x) && x@ == e,
            },
        decreases args, 1int,
    {
        let ghost env = eval.environment@;
        let ghost av = arg_views(args@);
        let ghost pre = pre_of(self.params());
        proof {
            lemma_arg_views(args@);
            assert(field_views(Seq::<(String, Value)>::empty()) =~= Seq::<(Seq<char>, VModel)>::empty());
        }
        let mut pl: ParamList<Value> = ParamList::new(Vec::new());
        let mut k: usize = 0;
        while k < self.params.args.len()
            invariant
                self.wf(),
                self.aligned(args@),
                eval.environment.wf(),
                eval.environment@ == env,
                env == old(eval).environment@,
                av == arg_views(args@),
                pre == pre_of(self.params()),
                av.len() == args@.len(),
                forall|y: int| 0 <= y < args@.len() ==> #[trigger] av[y] == (args@[y].0@, args@[y].1@),
                k <= self.params.args@.len(),
                model_wf(elem@),
                row_args(env, av, pre, elem@, k as int, param_values(pl)) == row_args(env, av, pre, elem@, 0, Seq::empty()),
                forall|i: int| 0 <= i < pl.args@.len() ==> model_wf(#[trigger] pl.args@[i].1@),
            decreases self.params.args@.len() - k,
        {
            let name = self.params.args[k].0.clone();
            proof {
                assert(name@ == av[k as int].0.text);
                assert(pre[k as int] == match self.params.args@[k as int].1 {
                    RawValue::Evaled(v) => Some(v@),
                    RawValue::Unevaled => None::<VModel>,
                });
            }
            let ghost before = pl.args@;
            match &self.params.args[k].1 {
                RawValue::Evaled(v) => {
                    proof {
                        assert(raw_wf(self.params.args@[k as int].1));
                    }
                    let c = v.deep_copy();
                    assert(model_wf(c@));
                    pl.push(name, c);
                    assert(model_wf(pl.args@[pl.args@.len() - 1].1@));
                },
                RawValue::Unevaled => {
                    eval.environment.push_scope();
                    let d = eval.environment.define("@", elem.deep_copy());
                    proof {
                        reveal_strlit("@");
                        assert("@"@ =~= seq!['@']);
                        let e0 = env.push(Seq::<(Seq<char>, VModel)>::empty());
                        assert(e0.drop_last() =~= env);
                        assert(e0.last() =~= Seq::<(Seq<char>, VModel)>::empty());
                        assert(!(exists|j: int| crate::value::first_key(e0.last(), "@"@, j)));
                        assert(Seq::<(Seq<char>, VModel)>::empty().push(("@"@, elem@)) =~= seq![(seq!['@'], elem@)]);
                        assert(eval.environment@ =~= crate::eval::with_local(env, elem@));
                        assert(decreases_to!(args => args@));
                        assert(decreases_to!(args@ => args@[k as int]));
                        assert(decreases_to!(args@[k as int] => args@[k as int].1));
                    }
                    let r = eval.expr(&args[k].1);
                    eval.environment.pop_scope();
                    proof {
                        assert(eval.environment@ =~= env);
                    }
                    match r {
                        Ok(v) => {
                            pl.push(name, v);
                            assert(model_wf(pl.args@[pl.args@.len() - 1].1@));
                        },
                        Err(e) => {
                            return Err(e);
                        },
                    }
                },
            }
            proof {
                assert(pl.args@.drop_last() =~= before);
                assert forall|i: int| 0 <= i < pl.args@.len() implies model_wf(#[trigger] pl.args@[i].1@) by {
                    if i < before.len() {
                        assert(pl.args@[i] == before[i]);
                    }
                }
            }
            k += 1;
        }
        proof {
            assert(self.params().len() == pre.len());
            assert(k as int >= pre.len());
            assert(row_args(env, av, pre, elem@, k as int, param_values(pl)) == Ok::<Seq<(Seq<char>, VModel)>, Failure>(param_values(pl)));
        }
        Ok(pl)
    }

    /// Pulls the next element with its arguments; `None` when the input is exhausted.
    pub fn pull_single(&mut self, eval: &mut Eval, args: &Vec<(Token, Ast)>) -> (r: Result<Option<(Value, ParamList<Value>)>, Error>)
        requires
            old(self).wf(),
            old(self).aligned(args@),
            old(eval).environment.wf(),
        ensures
            final(self).wf(),
            final(self).aligned(args@),
            final(self).params() == old(self).params(),
            final(self).pushed() == old(self).pushed(),
            final(eval).environment.wf(),
            final(eval).environment@ == old(eval).environment@,
            old(self).remaining().len() == 0 ==> (r matches Ok(None) && final(self).remaining() == old(self).remaining()),
            old(self).remaining().len() > 0 ==> match row_args(
                old(eval).environment@,
                arg_views(args@),
                pre_of(old(self).params()),
                old(self).remaining()[0],
                0,
                Seq::empty(),
            ) {
                Ok(ps) => r matches Ok(Some((v, pl))) && v@ == old(self).remaining()[0] && model_wf(v@)
                    && param_values(pl) == ps && final(self).remaining() == old(self).remaining().drop_first(),
                Err(e) => r matches Err(x) && x@ == e,
            },
        decreases args, 2int,
    {
        proof {
            lemma_views(self.input@);
        }
        if self.input.len() == 0 {
            return Ok(None);
        }
        let ghost before = self.input@;
        let elem = self.input.pop().unwrap();
        proof {
            assert(self.input@ =~= before.drop_last());
            lemma_views(self.input@);
            assert(views(self.input@).reverse() =~= views(before).reverse().drop_first());
            assert(model_wf(before[before.len() - 1]@));
        }
        match self.row(eval, args, &elem) {
            Ok(pl) => Ok(Some((elem, pl))),
            Err(e) => Err(e),
        }
    }
}

/// `first`: the first element of its input, as a list of one.
pub struct FirstOperator {}

impl FirstOperator {
    pub fn signature(&self) -> (r: Signature)
        ensures
            r.namespace@ == "std"@,
            r.name@ == "first"@,
            r.pure,
    {
        Signature {
            namespace: String::from_str("std"),
            name: String::from_str("first"),
            docstring: String::from_str("Takes the first element of input list"),
            input_t: Type::List(Box::new(Type::Any)),
            params_t: ParamList::new(Vec::new()),
            return_t: Type::List(Box::new(Type::Any)),
            pure: true,
        }
    }

    pub fn run(&self, input: &mut Pipe, output: &mut Pipe, eval: &mut Eval, args: &Vec<(Token, Ast)>) -> (r: Result<(), Error>)
        requires
            old(input).wf(),
            old(output).wf(),
            old(input).aligned(args@),
            old(eval).environment.wf(),
        ensures
            final(output).wf(),
            final(eval).environment.wf(),
            final(eval).environment@ == old(eval).environment@,
            match first_spec(old(eval).environment@, arg_views(args@), pre_of(old(input).params()), old(input).remaining()) {
                Ok(VModel::List(l)) => r is Ok && final(output).pushed() == old(output).pushed() + l,
                Ok(_) => false,
                Err(e) => r matches Err(x) && x@ == e,
            },
        decreases args, 3int,
    {
        match input.pull_single(eval, args) {
            Ok(Some((v, _))) => {
                output.push(v);
                proof {
                    assert(old(output).pushed() + seq![old(input).remaining()[0]] =~= final(output).pushed());
                }
                Ok(())
            },
            Ok(None) => Err(Error::EmptyInput),
            Err(e) => Err(e),
        }
    }
}

/// `filter`: the elements whose `where` argument is `true`, in their order.
pub struct FilterOperator {}

impl FilterOperator {
    pub fn signature(&self) -> (r: Signature)
        ensures
            r.namespace@ == "std"@,
            r.name@ == "filter"@,
            r.pure,
    {
        let mut params_t: ParamList<Type> = ParamList::new(Vec::new());
        params_t.push(String::from_str("where"), Type::Bool);
        Signature {
            namespace: String::from_str("std"),
            name: String::from_str("filter"),
            docstring: String::from_str("Filters list to only those elements that return True for 'where'"),
            input_t: Type::List(Box::new(Type::Any)),
            params_t,
            return_t: Type::List(Box::new(Type::Any)),
            pure: true,
        }
    }

    pub fn run(&self, input: &mut Pipe, output: &mut Pipe, eval: &mut Eval, args: &Vec<(Token, Ast)>) -> (r: Result<(), Error>)
        requires
            old(input).wf(),
            old(output).wf(),
            old(input).aligned(args@),
            old(eval).environment.wf(),
        ensures
            final(output).wf(),
            final(eval).environment.wf(),
            final(eval).environment@ == old(eval).environment@,
            match filter_from(old(eval).environment@, arg_views(args@), pre_of(old(input).params()), old(input).remaining(), 0, Seq::empty()) {
                Ok(VModel::List(l)) => r is Ok && final(output).pushed() == old(output).pushed() + l,
                Ok(_) => false,
                Err(e) => r matches Err(x) && x@ == e,
            },
        decreases args, 3int,
    {
        let ghost env = eval.environment@;
        let ghost all = input.remaining();
        let ghost pre = pre_of(input.params());
        let ghost av = arg_views(args@);
        let ghost out0 = output.pushed();
        let ghost mut acc: Seq<VModel> = Seq::empty();
        proof {
            assert(all.subrange(0, all.len() as int) =~= all);
            assert(out0 + acc =~= out0);
        }
        loop
            invariant
                input.wf(),
                output.wf(),
                input.aligned(args@),
                input.params() == old(input).params(),
                pre == pre_of(input.params()),
                eval.environment.wf(),
                eval.environment@ == env,
                env == old(eval).environment@,
                all == old(input).remaining(),
                av == arg_views(args@),
                out0 == old(output).pushed(),
                input.remaining().len() <= all.len(),
                input.remaining() == all.subrange(all.len() - input.remaining().len(), all.len() as int),
                filter_from(env, av, pre, all, all.len() - input.remaining().len(), acc) == filter_from(env, av, pre, all, 0, Seq::empty()),
                output.pushed() == out0 + acc,
            decreases input.remaining().len(),
        {
            let ghost i = all.len() - input.remaining().len();
            let ghost rem = input.remaining();
            match input.pull_single(eval, args) {
                Ok(Some((v, params))) => {
                    proof {
                        assert(rem[0] == all[i]);
                        assert(input.remaining() =~= all.subrange(i + 1, all.len() as int));
                        lemma_pget_index(params.args@, where_name(), 0);
                        reveal_strlit("where");
                        assert("where"@ =~= where_name());
                    }
                    let w = params.get("where");
                    proof {
                        match w {
                            Some(x) => {
                                assert(pget(param_values(params), where_name(), 0) == Some(x@));
                            },
                            None => {
                                assert(pget(param_values(params), where_name(), 0) is None);
                            },
                        }
                    }
                    match w {
                        Some(Value::Bool(true)) => {
                            output.push(v);
                            proof {
                                acc = acc.push(all[i]);
                                assert(output.pushed() =~= out0 + acc);
                            }
                        },
                        Some(Value::Bool(false)) => {},
                        Some(_) => {
                            return Err(Error::BadArgument(String::from_str("where")));
                        },
                        None => {
                            return Err(Error::MissingArgument(String::from_str("where")));
                        },
                    }
                },
                Ok(None) => {
                    return Ok(());
                },
                Err(e) => {
                    return Err(e);
                },
            }
        }
    }
}

} // verus!

verus! {

/// `row` is element `e` with its resolved arguments.
pub open spec fn row_is(
    row: (Value, ParamList<Value>),
    env: Seq<ScopeModel>,
    av: Seq<(TokView, crate::ast::AModel)>,
    pre: Seq<Option<VModel>>,
    e: VModel,
) -> bool {
    row.0@ == e && row_args(env, av, pre, e, 0, Seq::empty()) == Ok::<Seq<(Seq<char>, VModel)>, Failure>(param_values(row.1))
}

/// The arguments resolved for one element, when they resolve.
pub open spec fn row_ok(env: Seq<ScopeModel>, av: Seq<(TokView, crate::ast::AModel)>, pre: Seq<Option<VModel>>, e: VModel) -> bool {
    row_args(env, av, pre, e, 0, Seq::empty()) is Ok
}

impl Pipe {
    /// Pulls up to `batch` elements, each with its arguments; the first
    /// element whose arguments fail to resolve ends the pull with its error.
    fn pull_batch(&mut self, eval: &mut Eval, args: &Vec<(Token, Ast)>, batch: usize) -> (r: Result<Vec<(Value, ParamList<Value>)>, Error>)
        requires
            old(self).wf(),
            old(self).aligned(args@),
            old(eval).environment.wf(),
        ensures
            final(self).wf(),
            final(self).aligned(args@),
            final(self).params() == old(self).params(),
            final(self).pushed() == old(self).pushed(),
            final(eval).environment@ == old(eval).environment@,
            final(eval).environment.wf(),
            ({
                let rem = old(self).remaining();
                let n = if batch < rem.len() { batch as int } else { rem.len() as int };
                let env = old(eval).environment@;
                let av = arg_views(args@);
                let pre = pre_of(old(self).params());
                &&& r matches Ok(rows) ==> rows@.len() == n && final(self).remaining() == rem.subrange(n, rem.len() as int)
                    && forall|i: int| 0 <= i < n ==> row_is(#[trigger] rows@[i], env, av, pre, rem[i])
                &&& r matches Err(e) ==> exists|i: int| 0 <= i < n && (forall|j: int| 0 <= j < i ==> #[trigger] row_ok(env, av, pre, rem[j]))
                    && row_args(env, av, pre, rem[i], 0, Seq::empty()) == Err::<Seq<(Seq<char>, VModel)>, Failure>(e@)
                &&& (forall|i: int| 0 <= i < n ==> #[trigger] row_ok(env, av, pre, rem[i])) ==> r is Ok
            }),
    {
        let ghost rem = self.remaining();
        let ghost n: int = if batch < rem.len() { batch as int } else { rem.len() as int };
        let ghost env = eval.environment@;
        let ghost av = arg_views(args@);
        let ghost pre = pre_of(self.params());
        let mut rows: Vec<(Value, ParamList<Value>)> = Vec::new();
        let mut taken: usize = 0;
        while taken < batch && !self.is_empty()
            invariant
                self.wf(),
                self.aligned(args@),
                self.params() == old(self).params(),
                self.pushed() == old(self).pushed(),
                eval.environment.wf(),
                eval.environment@ == env,
                env == old(eval).environment@,
                rem == old(self).remaining(),
                av == arg_views(args@),
                pre == pre_of(self.params()),
                n == (if batch < rem.len() { batch as int } else { rem.len() as int }),
                taken <= n,
                rows@.len() == taken,
                self.remaining() == rem.subrange(taken as int, rem.len() as int),
                forall|i: int| 0 <= i < taken ==> row_is(#[trigger] rows@[i], env, av, pre, rem[i]),
            decreases n - taken,
        {
            let ghost before = rows@;
            let ghost cur = self.remaining();
            proof {
                assert(cur[0] == rem[taken as int]);
            }
            match self.pull_single(eval, args) {
                Ok(Some(row)) => {
                    proof {
                        let ra = row_args(env, av, pre, cur[0], 0, Seq::empty());
                        if ra is Err {
                            assert(false);
                        }
                        assert(ra == Ok::<Seq<(Seq<char>, VModel)>, Failure>(param_values(row.1)));
                        assert(row.0@ == rem[taken as int]);
                    }
                    rows.push(row);
                    proof {
                        assert(rows@[taken as int] == row);
                        assert(self.remaining() =~= rem.subrange(taken + 1, rem.len() as int));
                        assert forall|i: int| 0 <= i < taken + 1 implies row_is(#[trigger] rows@[i], env, av, pre, rem[i]) by {
                            if i < taken {
                                assert(rows@[i] == before[i]);
                                assert(row_is(before[i], env, av, pre, rem[i]));
                            } else {
                                assert(i == taken);
                                assert(rows@[i] == row);
                            }
                        }
                    }
                },
                Ok(None) => {
                    proof {
                        assert(false);
                    }
                },
                Err(e) => {
                    proof {
                        let i = taken as int;
                        assert forall|j: int| 0 <= j < i implies #[trigger] row_ok(env, av, pre, rem[j]) by {
                            assert(row_is(rows@[j], env, av, pre, rem[j]));
                        }
                        assert(row_args(env, av, pre, rem[i], 0, Seq::empty()) == Err::<Seq<(Seq<char>, VModel)>, Failure>(e@));
                        assert(!row_ok(env, av, pre, rem[i]));
                        assert(0 <= i < n && (forall|j: int| 0 <= j < i ==> #[trigger] row_ok(env, av, pre, rem[j]))
                            && row_args(env, av, pre, rem[i], 0, Seq::empty()) == Err::<Seq<(Seq<char>, VModel)>, Failure>(e@));
                    }
                    return Err(e);
                },
            }
            taken += 1;
        }
        proof {
            assert(taken == n);
        }
        Ok(rows)
    }

    /// Pulls the next batch of elements (up to `BATCH_SIZE`) with their arguments.
    pub fn pull(&mut self, eval: &mut Eval, args: &Vec<(Token, Ast)>) -> (r: Result<Vec<(Value, ParamList<Value>)>, Error>)
        requires
            old(self).wf(),
            old(self).aligned(args@),
            old(eval).environment.wf(),
        ensures
            final(self).wf(),
            final(eval).environment@ == old(eval).environment@,
            ({
                let rem = old(self).remaining();
                let n = if BATCH_SIZE < rem.len() { BATCH_SIZE as int } else { rem.len() as int };
                &&& r matches Ok(rows) ==> rows@.len() == n && final(self).remaining() == rem.subrange(n, rem.len() as int)
                    && forall|i: int| 0 <= i < n ==> row_is(#[trigger] rows@[i], old(eval).environment@, arg_views(args@), pre_of(old(self).params()), rem[i])
                &&& r is Err ==> exists|i: int| 0 <= i < n && row_args(
                        old(eval).environment@, arg_views(args@), pre_of(old(self).params()), rem[i], 0, Seq::empty(),
                    ) is Err
            }),
    {
        self.pull_batch(eval, args, BATCH_SIZE)
    }

    /// Pulls every remaining element with its arguments.
    pub fn pull_all(&mut self, eval: &mut Eval, args: &Vec<(Token, Ast)>) -> (r: Result<Vec<(Value, ParamList<Value>)>, Error>)
        requires
            old(self).wf(),
            old(self).aligned(args@),
            old(eval).environment.wf(),
        ensures
            final(self).wf(),
            final(eval).environment@ == old(eval).environment@,
            ({
                let rem = old(self).remaining();
                &&& r matches Ok(rows) ==> rows@.len() == rem.len() && final(self).remaining().len() == 0
                    && forall|i: int| 0 <= i < rem.len() ==> row_is(#[trigger] rows@[i], old(eval).environment@, arg_views(args@), pre_of(old(self).params()), rem[i])
                &&& r is Err ==> exists|i: int| 0 <= i < rem.len() && row_args(
                        old(eval).environment@, arg_views(args@), pre_of(old(self).params()), rem[i], 0, Seq::empty(),
                    ) is Err
            }),
    {
        proof {
            lemma_views(self.input@);
        }
        let n = self.input.len();
        self.pull_batch(eval, args, n)
    }
}

} // verus!

verus! {

/// An operator that a pipeline runs: its declared interface, and how it
/// turns the elements of its input pipe into output. `outcome` gives the
/// result of a run from the scopes, the call's arguments, the values of the
/// arguments evaluated once, and the input elements.
pub trait Operator {
    spec fn outcome(
        &self,
        env: Seq<ScopeModel>,
        args: Seq<(TokView, AModel)>,
        pre: Seq<Option<VModel>>,
        input: Seq<VModel>,
    ) -> Result<VModel, Failure>;

    /// The operator's namespace and name.
    spec fn names(&self) -> (Seq<char>, Seq<char>);

    fn signature(&self) -> (r: Signature)
        ensures
            (r.namespace@, r.name@) == self.names(),
    ;

    fn run(&self, input: &mut Pipe, output: &mut Pipe, eval: &mut Eval, args: &Vec<(Token, Ast)>) -> (r: Result<(), Error>)
        requires
            old(input).wf(),
            old(output).wf(),
            old(input).aligned(args@),
            old(eval).environment.wf(),
        ensures
            final(output).wf(),
            final(eval).environment.wf(),
            final(eval).environment@ == old(eval).environment@,
            match self.outcome(old(eval).environment@, arg_views(args@), pre_of(old(input).params()), old(input).remaining()) {
                Ok(VModel::List(l)) => r is Ok && final(output).pushed() == old(output).pushed() + l,
                Ok(_) => false,
                Err(e) => r matches Err(x) && x@ == e,
            },
    ;
}

impl Operator for FirstOperator {
    open spec fn outcome(
        &self,
        env: Seq<ScopeModel>,
        args: Seq<(TokView, AModel)>,
        pre: Seq<Option<VModel>>,
        input: Seq<VModel>,
    ) -> Result<VModel, Failure> {
        first_spec(env, args, pre, input)
    }

    open spec fn names(&self) -> (Seq<char>, Seq<char>) {
        ("std"@, "first"@)
    }

    fn signature(&self) -> (r: Signature) {
        FirstOperator::signature(self)
    }

    fn run(&self, input: &mut Pipe, output: &mut Pipe, eval: &mut Eval, args: &Vec<(Token, Ast)>) -> (r: Result<(), Error>) {
        FirstOperator::run(self, input, output, eval, args)
    }
}

impl Operator for FilterOperator {
    open spec fn outcome(
        &self,
        env: Seq<ScopeModel>,
        args: Seq<(TokView, AModel)>,
        pre: Seq<Option<VModel>>,
        input: Seq<VModel>,
    ) -> Result<VModel, Failure> {
        filter_from(env, args, pre, input, 0, Seq::empty())
    }

    open spec fn names(&self) -> (Seq<char>, Seq<char>) {
        ("std"@, "filter"@)
    }

    fn signature(&self) -> (r: Signature) {
        FilterOperator::signature(self)
    }

    fn run(&self, input: &mut Pipe, output: &mut Pipe, eval: &mut Eval, args: &Vec<(Token, Ast)>) -> (r: Result<(), Error>) {
        FilterOperator::run(self, input, output, eval, args)
    }
}

} // verus!
