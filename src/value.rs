use vstd::prelude::*;
use vstd::string::StringExecFns;
use crate::error::{result_view, Error, Failure};
use crate::lexer::TokenType;
use crate::number::{add_num, div_num, mul_num, neg_num, sub_num, Number};

verus! {

/// A runtime value of a query.
///
/// A record holds its fields in the order they were written; its names are
/// unique (see `wf`).
#[derive(Debug)]
pub enum Value {
    Number(Number),
    String(String),
    Bool(bool),
    List(Vec<Value>),
    Record(Vec<(String, Value)>),
}

/// The mathematical content of a `Value`.
pub enum VModel {
    Number(Number),
    Str(Seq<char>),
    Bool(bool),
    List(Seq<VModel>),
    Record(Seq<(Seq<char>, VModel)>),
}

pub open spec fn views(s: Seq<Value>) -> Seq<VModel>
    decreases s,
{
    if s.len() == 0 {
        Seq::empty()
    } else {
        views(s.drop_last()).push(s.last().view())
    }
}

pub open spec fn field_views(s: Seq<(String, Value)>) -> Seq<(Seq<char>, VModel)>
    decreases s,
{
    if s.len() == 0 {
        Seq::empty()
    } else {
        field_views(s.drop_last()).push((s.last().0@, s.last().1.view()))
    }
}

impl View for Value {
    type V = VModel;

    open spec fn view(&self) -> VModel
        decreases self,
    {
        match self {
            Value::Number(n) => VModel::Number(*n),
            Value::String(s) => VModel::Str(s@),
            Value::Bool(b) => VModel::Bool(*b),
            Value::List(l) => VModel::List(views(l@)),
            Value::Record(r) => VModel::Record(field_views(r@)),
        }
    }
}

pub proof fn lemma_views(s: Seq<Value>)
    ensures
        views(s).len() == s.len(),
        forall|i: int| 0 <= i < s.len() ==> #[trigger] views(s)[i] == s[i]@,
    decreases s.len(),
{
    if s.len() > 0 {
        lemma_views(s.drop_last());
        assert(views(s) == views(s.drop_last()).push(s.last().view()));
    } else {
        assert(views(s) == Seq::<VModel>::empty());
    }
}

pub proof fn lemma_field_views(s: Seq<(String, Value)>)
    ensures
        field_views(s).len() == s.len(),
        forall|i: int|
            0 <= i < s.len() ==> #[trigger] field_views(s)[i] == (s[i].0@, s[i].1@),
    decreases s.len(),
{
    if s.len() > 0 {
        lemma_field_views(s.drop_last());
        assert(field_views(s) == field_views(s.drop_last()).push((s.last().0@, s.last().1.view())));
    } else {
        assert(field_views(s) == Seq::<(Seq<char>, VModel)>::empty());
    }
}

/// The runtime type of a value.
#[derive(Debug)]
pub enum Type {
    Any,
    Number,
    String,
    Bool,
    List(Box<Type>),
    Record(Vec<(String, Type)>),
}

pub open spec fn field_tviews(s: Seq<(String, Type)>) -> Seq<(Seq<char>, TModel)>
    decreases s,
{
    if s.len() == 0 {
        Seq::empty()
    } else {
        field_tviews(s.drop_last()).push((s.last().0@, s.last().1.view()))
    }
}

impl View for Type {
    type V = TModel;

    open spec fn view(&self) -> TModel
        decreases self,
    {
        match self {
            Type::Any => TModel::Any,
            Type::Number => TModel::Number,
            Type::String => TModel::Str,
            Type::Bool => TModel::Bool,
            Type::List(t) => TModel::List(Box::new((**t).view())),
            Type::Record(r) => TModel::Record(field_tviews(r@)),
        }
    }
}

pub proof fn lemma_field_tviews(s: Seq<(String, Type)>)
    ensures
        field_tviews(s).len() == s.len(),
        forall|i: int|
            0 <= i < s.len() ==> #[trigger] field_tviews(s)[i] == (s[i].0@, s[i].1@),
    decreases s.len(),
{
    if s.len() > 0 {
        lemma_field_tviews(s.drop_last());
        assert(field_tviews(s) == field_tviews(s.drop_last()).push((s.last().0@, s.last().1.view())));
    } else {
        assert(field_tviews(s) == Seq::<(Seq<char>, TModel)>::empty());
    }
}

/// The type of a value, as the type checks see it.
pub enum TModel {
    Any,
    Number,
    Str,
    Bool,
    List(Box<TModel>),
    Record(Seq<(Seq<char>, TModel)>),
}

/// `j` is the first index of `fields` whose name is `k`.
pub open spec fn first_key<T>(fields: Seq<(Seq<char>, T)>, k: Seq<char>, j: int) -> bool {
    &&& 0 <= j < fields.len()
    &&& fields[j].0 == k
    &&& forall|x: int| 0 <= x < j ==> fields[x].0 != k
}

pub open spec fn keys_unique<T>(fields: Seq<(Seq<char>, T)>) -> bool {
    forall|i: int, j: int| 0 <= i < j < fields.len() ==> fields[i].0 != fields[j].0
}

/// Numbers have positive denominators and records have unique names, at every depth.
pub open spec fn model_wf(m: VModel) -> bool
    decreases m,
{
    match m {
        VModel::Number(n) => n.wf(),
        VModel::List(l) => forall|i: int| 0 <= i < l.len() ==> model_wf(#[trigger] l[i]),
        VModel::Record(r) => keys_unique(r) && forall|i: int|
            0 <= i < r.len() ==> model_wf(#[trigger] r[i].1),
        _ => true,
    }
}

/// The first field of `fields` named `k` holds a value equal to `v`.
pub open spec fn field_in(fields: Seq<(Seq<char>, VModel)>, k: Seq<char>, v: VModel) -> bool
    decreases v, 1int,
{
    exists|j: int| #[trigger] first_key(fields, k, j) && model_eq(v, fields[j].1)
}

/// Structural equality: numbers by value, lists element by element in order,
/// records by their names and values regardless of order; values of different
/// kinds are unequal.
pub open spec fn model_eq(a: VModel, b: VModel) -> bool
    decreases a, 0int,
{
    match a {
        VModel::Number(x) => b matches VModel::Number(y) && x.same_value(y),
        VModel::Str(x) => b matches VModel::Str(y) && x == y,
        VModel::Bool(x) => b matches VModel::Bool(y) && x == y,
        VModel::List(l) => b matches VModel::List(m) && l.len() == m.len() && forall|i: int|
            0 <= i < l.len() ==> model_eq(#[trigger] l[i], m[i]),
        VModel::Record(l) => b matches VModel::Record(m) && l.len() == m.len() && forall|i: int|
            0 <= i < l.len() ==> field_in(m, #[trigger] l[i].0, l[i].1),
    }
}

pub open spec fn field_types(r: Seq<(Seq<char>, VModel)>) -> Seq<(Seq<char>, TModel)>
    decreases r,
{
    if r.len() == 0 {
        Seq::empty()
    } else {
        field_types(r.drop_last()).push((r.last().0, type_of(r.last().1)))
    }
}

/// The type derived from a value: a list has the type of its first element
/// (an empty list has type `Any`), a record the types of its fields.
pub open spec fn type_of(m: VModel) -> TModel
    decreases m,
{
    match m {
        VModel::Number(_) => TModel::Number,
        VModel::Str(_) => TModel::Str,
        VModel::Bool(_) => TModel::Bool,
        VModel::List(l) => if l.len() == 0 {
            TModel::Any
        } else {
            TModel::List(Box::new(type_of(l[0])))
        },
        VModel::Record(r) => TModel::Record(field_types(r)),
    }
}

pub proof fn lemma_field_types(r: Seq<(Seq<char>, VModel)>)
    ensures
        field_types(r).len() == r.len(),
        forall|i: int|
            0 <= i < r.len() ==> #[trigger] field_types(r)[i] == (r[i].0, type_of(r[i].1)),
    decreases r.len(),
{
    if r.len() > 0 {
        lemma_field_types(r.drop_last());
        assert(field_types(r) == field_types(r.drop_last()).push((r.last().0, type_of(r.last().1))));
    } else {
        assert(field_types(r) == Seq::<(Seq<char>, TModel)>::empty());
    }
}

/// The first field of `fields` named `k` has a type equal to `t`.
pub open spec fn type_field_in(fields: Seq<(Seq<char>, TModel)>, k: Seq<char>, t: TModel) -> bool
    decreases t, 1int,
{
    exists|j: int| #[trigger] first_key(fields, k, j) && type_eq(t, fields[j].1)
}

/// Type equality; record types compare by their names and field types regardless of order.
pub open spec fn type_eq(a: TModel, b: TModel) -> bool
    decreases a, 0int,
{
    match a {
        TModel::Any => b is Any,
        TModel::Number => b is Number,
        TModel::Str => b is Str,
        TModel::Bool => b is Bool,
        TModel::List(x) => b matches TModel::List(y) && type_eq(*x, *y),
        TModel::Record(l) => b matches TModel::Record(m) && l.len() == m.len() && forall|i: int|
            0 <= i < l.len() ==> type_field_in(m, #[trigger] l[i].0, l[i].1),
    }
}

/// Two values are of one type.
pub open spec fn same_type(a: VModel, b: VModel) -> bool {
    type_eq(type_of(a), type_of(b))
}

/// A numeric result: the number, or an error where its parts leave the `i64` range.
pub open spec fn number_result(n: Option<Number>) -> Result<VModel, Failure> {
    match n {
        Some(x) => Ok(VModel::Number(x)),
        None => Err(Failure::NumberRange),
    }
}

/// `+`: numeric sum, or concatenation of two strings.
pub open spec fn add_spec(a: VModel, b: VModel) -> Result<VModel, Failure> {
    match (a, b) {
        (VModel::Number(x), VModel::Number(y)) => number_result(add_num(x, y)),
        (VModel::Str(x), VModel::Str(y)) => Ok(VModel::Str(x + y)),
        _ => Err(Failure::Type(TokenType::Plus)),
    }
}

pub open spec fn sub_spec(a: VModel, b: VModel) -> Result<VModel, Failure> {
    match (a, b) {
        (VModel::Number(x), VModel::Number(y)) => number_result(sub_num(x, y)),
        _ => Err(Failure::Type(TokenType::Minus)),
    }
}

pub open spec fn mul_spec(a: VModel, b: VModel) -> Result<VModel, Failure> {
    match (a, b) {
        (VModel::Number(x), VModel::Number(y)) => number_result(mul_num(x, y)),
        _ => Err(Failure::Type(TokenType::Star)),
    }
}

pub open spec fn div_spec(a: VModel, b: VModel) -> Result<VModel, Failure> {
    match (a, b) {
        (VModel::Number(x), VModel::Number(y)) => number_result(div_num(x, y)),
        _ => Err(Failure::Type(TokenType::Slash)),
    }
}

/// `<`, `<=`, `>`, `>=` (by the operator's token kind) on two numbers.
pub open spec fn compare_spec(op: TokenType, a: VModel, b: VModel) -> Result<VModel, Failure> {
    match (a, b) {
        (VModel::Number(x), VModel::Number(y)) => Ok(
            VModel::Bool(
                match op {
                    TokenType::Lesser => x.less_than(y),
                    TokenType::LesserEqual => x.less_than(y) || x.same_value(y),
                    TokenType::Greater => y.less_than(x),
                    _ => y.less_than(x) || x.same_value(y),
                },
            ),
        ),
        _ => Err(Failure::Type(op)),
    }
}

/// `and` / `or` (by the operator's token kind) on two booleans.
pub open spec fn logic_spec(op: TokenType, a: VModel, b: VModel) -> Result<VModel, Failure> {
    match (a, b) {
        (VModel::Bool(x), VModel::Bool(y)) => Ok(
            VModel::Bool(
                if op == TokenType::And {
                    x && y
                } else {
                    x || y
                },
            ),
        ),
        _ => Err(Failure::Type(op)),
    }
}

pub open spec fn neg_spec(a: VModel) -> Result<VModel, Failure> {
    match a {
        VModel::Number(x) => number_result(neg_num(x)),
        _ => Err(Failure::Type(TokenType::Minus)),
    }
}

/// The first index of `fields` whose name is `k`.
pub fn find_name<T>(fields: &Vec<(String, T)>, k: &String) -> (r: Option<usize>)
    ensures
        r matches Some(j) ==> j < fields@.len() && fields@[j as int].0@ == k@ && forall|x: int|
            0 <= x < j ==> fields@[x].0@ != k@,
        r is None ==> forall|x: int| 0 <= x < fields@.len() ==> fields@[x].0@ != k@,
{
    let mut j: usize = 0;
    while j < fields.len()
        invariant
            j <= fields@.len(),
            forall|x: int| 0 <= x < j ==> fields@[x].0@ != k@,
        decreases fields@.len() - j,
    {
        if fields[j].0 == *k {
            return Some(j);
        }
        j += 1;
    }
    None
}

proof fn lemma_list_decreases(v: Value, i: int)
    requires
        v is List,
        0 <= i < v->List_0@.len(),
    ensures
        decreases_to!(v => v->List_0@[i]),
{
    let l = v->List_0;
    assert(decreases_to!(v => l));
    assert(decreases_to!(l => l@));
    assert(decreases_to!(l@ => l@[i]));
}

proof fn lemma_record_decreases(v: Value, i: int)
    requires
        v is Record,
        0 <= i < v->Record_0@.len(),
    ensures
        decreases_to!(v => v->Record_0@[i].1),
{
    let l = v->Record_0;
    assert(decreases_to!(v => l));
    assert(decreases_to!(l => l@));
    assert(decreases_to!(l@ => l@[i]));
    assert(decreases_to!(l@[i] => l@[i].1));
}

impl Value {
    /// A copy of the value, equal to it in every part.
    pub fn deep_copy(&self) -> (r: Value)
        ensures
            r@ == self@,
        decreases self,
    {
        match self {
            Value::Number(n) => Value::Number(*n),
            Value::String(s) => Value::String(s.clone()),
            Value::Bool(b) => Value::Bool(*b),
            Value::List(l) => {
                let mut out: Vec<Value> = Vec::new();
                let mut i: usize = 0;
                while i < l.len()
                    invariant
                        *self is List && self->List_0 == *l,
                        i <= l@.len(),
                        out@.len() == i,
                        forall|k: int| 0 <= k < i ==> (#[trigger] out@[k])@ == l@[k]@,
                    decreases l@.len() - i,
                {
                    proof {
                        lemma_list_decreases(*self, i as int);
                    }
                    out.push(l[i].deep_copy());
                    i += 1;
                }
                proof {
                    lemma_views(out@);
                    lemma_views(l@);
                    assert(views(out@) =~= views(l@));
                }
                Value::List(out)
            },
            Value::Record(r) => {
                let mut out: Vec<(String, Value)> = Vec::new();
                let mut i: usize = 0;
                while i < r.len()
                    invariant
                        *self is Record && self->Record_0 == *r,
                        i <= r@.len(),
                        out@.len() == i,
                        forall|k: int|
                            0 <= k < i ==> (#[trigger] out@[k]).0@ == r@[k].0@ && out@[k].1@
                                == r@[k].1@,
                    decreases r@.len() - i,
                {
                    proof {
                        lemma_record_decreases(*self, i as int);
                    }
                    out.push((r[i].0.clone(), r[i].1.deep_copy()));
                    i += 1;
                }
                proof {
                    lemma_field_views(out@);
                    lemma_field_views(r@);
                    assert(field_views(out@) =~= field_views(r@));
                }
                Value::Record(out)
            },
        }
    }

    /// Structural equality (see `model_eq`).
    pub fn equals(&self, o: &Value) -> (r: bool)
        ensures
            r == model_eq(self@, o@),
        decreases self,
    {
        match (self, o) {
            (Value::Number(x), Value::Number(y)) => x.equals(*y),
            (Value::String(x), Value::String(y)) => *x == *y,
            (Value::Bool(x), Value::Bool(y)) => *x == *y,
            (Value::List(l), Value::List(m)) => {
                proof {
                    lemma_views(l@);
                    lemma_views(m@);
                }
                assert(self@ == VModel::List(views(l@)));
                assert(o@ == VModel::List(views(m@)));
                if l.len() != m.len() {
                    return false;
                }
                let mut i: usize = 0;
                while i < l.len()
                    invariant
                        *self is List && self->List_0 == *l,
                        self@ == VModel::List(views(l@)),
                        o@ == VModel::List(views(m@)),
                        i <= l@.len() == m@.len(),
                        views(l@).len() == l@.len(),
                        views(m@).len() == m@.len(),
                        forall|k: int| 0 <= k < l@.len() ==> #[trigger] views(l@)[k] == l@[k]@,
                        forall|k: int| 0 <= k < m@.len() ==> #[trigger] views(m@)[k] == m@[k]@,
                        forall|k: int| 0 <= k < i ==> model_eq(#[trigger] views(l@)[k], views(m@)[k]),
                    decreases l@.len() - i,
                {
                    proof {
                        lemma_list_decreases(*self, i as int);
                    }
                    if !l[i].equals(&m[i]) {
                        assert(!model_eq(views(l@)[i as int], views(m@)[i as int]));
                        assert(!model_eq(self@, o@));
                        return false;
                    }
                    i += 1;
                }
                true
            },
            (Value::Record(l), Value::Record(m)) => {
                proof {
                    lemma_field_views(l@);
                    lemma_field_views(m@);
                }
                let ghost fl = field_views(l@);
                let ghost fm = field_views(m@);
                assert(self@ == VModel::Record(fl));
                assert(o@ == VModel::Record(fm));
                if l.len() != m.len() {
                    return false;
                }
                let mut i: usize = 0;
                while i < l.len()
                    invariant
                        *self is Record && self->Record_0 == *l,
                        self@ == VModel::Record(fl),
                        o@ == VModel::Record(fm),
                        i <= l@.len() == m@.len(),
                        fl == field_views(l@),
                        fm == field_views(m@),
                        fl.len() == l@.len(),
                        fm.len() == m@.len(),
                        forall|k: int|
                            0 <= k < l@.len() ==> #[trigger] fl[k] == (l@[k].0@, l@[k].1@),
                        forall|k: int|
                            0 <= k < m@.len() ==> #[trigger] fm[k] == (m@[k].0@, m@[k].1@),
                        forall|k: int| 0 <= k < i ==> field_in(fm, #[trigger] fl[k].0, fl[k].1),
                    decreases l@.len() - i,
                {
                    let found = find_name(m, &l[i].0);
                    if found.is_none() {
                        proof {
                            assert forall|j: int| !first_key(fm, fl[i as int].0, j) by {
                                if 0 <= j < fm.len() {
                                    assert(fm[j].0 == m@[j].0@);
                                }
                            }
                            assert(!field_in(fm, fl[i as int].0, fl[i as int].1));
                            assert(!model_eq(self@, o@));
                        }
                        return false;
                    }
                    let j = found.unwrap();
                    proof {
                        assert(first_key(fm, fl[i as int].0, j as int));
                        lemma_record_decreases(*self, i as int);
                    }
                    if !l[i].1.equals(&m[j].1) {
                        proof {
                            assert forall|j2: int| !(first_key(fm, fl[i as int].0, j2)
                                && model_eq(fl[i as int].1, fm[j2].1)) by {
                                if first_key(fm, fl[i as int].0, j2) && j2 != j {
                                    if j2 < j {
                                        assert(fm[j2].0 == m@[j2].0@);
                                    } else {
                                        assert(fm[j as int].0 == m@[j as int].0@);
                                    }
                                }
                            }
                            assert(!field_in(fm, fl[i as int].0, fl[i as int].1));
                            assert(!model_eq(self@, o@));
                        }
                        return false;
                    }
                    let ghost old_i = i as int;
                    i += 1;
                    proof {
                        assert(first_key(fm, fl[old_i].0, j as int) && model_eq(fl[old_i].1, fm[j as int].1));
                        assert(field_in(fm, fl[old_i].0, fl[old_i].1));
                    }
                }
                assert(model_eq(self@, o@));
                true
            },
            _ => false,
        }
    }
}

proof fn lemma_type_decreases(t: Type, i: int)
    requires
        t is Record,
        0 <= i < t->Record_0@.len(),
    ensures
        decreases_to!(t => t->Record_0@[i].1),
{
    let l = t->Record_0;
    assert(decreases_to!(t => l));
    assert(decreases_to!(l => l@));
    assert(decreases_to!(l@ => l@[i]));
    assert(decreases_to!(l@[i] => l@[i].1));
}

impl Value {
    /// The type derived from the value (see `type_of`).
    pub fn get_type(&self) -> (r: Type)
        ensures
            r@ == type_of(self@),
        decreases self,
    {
        match self {
            Value::Number(_) => Type::Number,
            Value::String(_) => Type::String,
            Value::Bool(_) => Type::Bool,
            Value::List(l) => {
                proof {
                    lemma_views(l@);
                }
                if l.len() == 0 {
                    Type::Any
                } else {
                    proof {
                        lemma_list_decreases(*self, 0);
                    }
                    Type::List(Box::new(l[0].get_type()))
                }
            },
            Value::Record(r) => {
                let mut out: Vec<(String, Type)> = Vec::new();
                let mut i: usize = 0;
                while i < r.len()
                    invariant
                        *self is Record && self->Record_0 == *r,
                        i <= r@.len(),
                        out@.len() == i,
                        forall|k: int|
                            0 <= k < i ==> (#[trigger] out@[k]).0@ == r@[k].0@ && out@[k].1@
                                == type_of(r@[k].1@),
                    decreases r@.len() - i,
                {
                    proof {
                        lemma_record_decreases(*self, i as int);
                    }
                    out.push((r[i].0.clone(), r[i].1.get_type()));
                    i += 1;
                }
                proof {
                    lemma_field_tviews(out@);
                    lemma_field_views(r@);
                    lemma_field_types(field_views(r@));
                    assert(field_tviews(out@) =~= field_types(field_views(r@)));
                }
                Type::Record(out)
            },
        }
    }
}

impl Type {
    /// Type equality (see `type_eq`).
    pub fn equals(&self, o: &Type) -> (r: bool)
        ensures
            r == type_eq(self@, o@),
        decreases self,
    {
        match (self, o) {
            (Type::Any, Type::Any) => true,
            (Type::Number, Type::Number) => true,
            (Type::String, Type::String) => true,
            (Type::Bool, Type::Bool) => true,
            (Type::List(x), Type::List(y)) => {
                proof {
                    assert(decreases_to!(self => **x));
                }
                (**x).equals(&**y)
            },
            (Type::Record(l), Type::Record(m)) => {
                proof {
                    lemma_field_tviews(l@);
                    lemma_field_tviews(m@);
                }
                let ghost fl = field_tviews(l@);
                let ghost fm = field_tviews(m@);
                assert(self@ == TModel::Record(fl));
                assert(o@ == TModel::Record(fm));
                if l.len() != m.len() {
                    return false;
                }
                let mut i: usize = 0;
                while i < l.len()
                    invariant
                        *self is Record && self->Record_0 == *l,
                        self@ == TModel::Record(fl),
                        o@ == TModel::Record(fm),
                        i <= l@.len() == m@.len(),
                        fl == field_tviews(l@),
                        fm == field_tviews(m@),
                        fl.len() == l@.len(),
                        fm.len() == m@.len(),
                        forall|k: int|
                            0 <= k < l@.len() ==> #[trigger] fl[k] == (l@[k].0@, l@[k].1@),
                        forall|k: int|
                            0 <= k < m@.len() ==> #[trigger] fm[k] == (m@[k].0@, m@[k].1@),
                        forall|k: int| 0 <= k < i ==> type_field_in(fm, #[trigger] fl[k].0, fl[k].1),
                    decreases l@.len() - i,
                {
                    let found = find_name(m, &l[i].0);
                    if found.is_none() {
                        proof {
                            assert forall|j: int| !first_key(fm, fl[i as int].0, j) by {
                                if 0 <= j < fm.len() {
                                    assert(fm[j].0 == m@[j].0@);
                                }
                            }
                            assert(!type_field_in(fm, fl[i as int].0, fl[i as int].1));
                            assert(!type_eq(self@, o@));
                        }
                        return false;
                    }
                    let j = found.unwrap();
                    proof {
                        assert(first_key(fm, fl[i as int].0, j as int));
                        lemma_type_decreases(*self, i as int);
                    }
                    if !l[i].1.equals(&m[j].1) {
                        proof {
                            assert forall|j2: int| !(first_key(fm, fl[i as int].0, j2)
                                && type_eq(fl[i as int].1, fm[j2].1)) by {
                                if first_key(fm, fl[i as int].0, j2) && j2 != j {
                                    if j2 < j {
                                        assert(fm[j2].0 == m@[j2].0@);
                                    } else {
                                        assert(fm[j as int].0 == m@[j as int].0@);
                                    }
                                }
                            }
                            assert(!type_field_in(fm, fl[i as int].0, fl[i as int].1));
                            assert(!type_eq(self@, o@));
                        }
                        return false;
                    }
                    let ghost old_i = i as int;
                    i += 1;
                    proof {
                        assert(first_key(fm, fl[old_i].0, j as int) && type_eq(fl[old_i].1, fm[j as int].1));
                        assert(type_field_in(fm, fl[old_i].0, fl[old_i].1));
                    }
                }
                assert(type_eq(self@, o@));
                true
            },
            _ => false,
        }
    }
}

fn number_value(n: Option<Number>) -> (r: Result<Value, Error>)
    requires
        n matches Some(x) ==> x.wf(),
    ensures
        result_view(r) == number_result(n),
        r matches Ok(v) ==> model_wf(v@),
{
    match n {
        Some(x) => Ok(Value::Number(x)),
        None => Err(Error::NumberRange),
    }
}

impl Value {
    /// `+`: the sum of two numbers or the concatenation of two strings.
    pub fn add(&self, o: &Value) -> (r: Result<Value, Error>)
        requires
            model_wf(self@),
            model_wf(o@),
        ensures
            result_view(r) == add_spec(self@, o@),
            r matches Ok(v) ==> model_wf(v@),
    {
        match (self, o) {
            (Value::Number(x), Value::Number(y)) => number_value(x.add(*y)),
            (Value::String(x), Value::String(y)) => {
                let mut s = x.clone();
                s.append(y.as_str());
                Ok(Value::String(s))
            },
            _ => Err(Error::Type(TokenType::Plus)),
        }
    }

    /// `-` on two numbers.
    pub fn sub(&self, o: &Value) -> (r: Result<Value, Error>)
        requires
            model_wf(self@),
            model_wf(o@),
        ensures
            result_view(r) == sub_spec(self@, o@),
            r matches Ok(v) ==> model_wf(v@),
    {
        match (self, o) {
            (Value::Number(x), Value::Number(y)) => number_value(x.sub(*y)),
            _ => Err(Error::Type(TokenType::Minus)),
        }
    }

    /// `*` on two numbers.
    pub fn mul(&self, o: &Value) -> (r: Result<Value, Error>)
        requires
            model_wf(self@),
            model_wf(o@),
        ensures
            result_view(r) == mul_spec(self@, o@),
            r matches Ok(v) ==> model_wf(v@),
    {
        match (self, o) {
            (Value::Number(x), Value::Number(y)) => number_value(x.mul(*y)),
            _ => Err(Error::Type(TokenType::Star)),
        }
    }

    /// `/` on two numbers; dividing by zero gives an infinity or NaN.
    pub fn div(&self, o: &Value) -> (r: Result<Value, Error>)
        requires
            model_wf(self@),
            model_wf(o@),
        ensures
            result_view(r) == div_spec(self@, o@),
            r matches Ok(v) ==> model_wf(v@),
    {
        match (self, o) {
            (Value::Number(x), Value::Number(y)) => number_value(x.div(*y)),
            _ => Err(Error::Type(TokenType::Slash)),
        }
    }

    fn compare(&self, op: TokenType, o: &Value) -> (r: Result<Value, Error>)
        ensures
            result_view(r) == compare_spec(op, self@, o@),
            r matches Ok(v) ==> model_wf(v@),
    {
        match (self, o) {
            (Value::Number(x), Value::Number(y)) => {
                let b = match op {
                    TokenType::Lesser => x.lt(*y),
                    TokenType::LesserEqual => x.lt(*y) || x.equals(*y),
                    TokenType::Greater => y.lt(*x),
                    _ => y.lt(*x) || x.equals(*y),
                };
                Ok(Value::Bool(b))
            },
            _ => Err(Error::Type(op)),
        }
    }

    /// `<` on two numbers.
    pub fn lt(&self, o: &Value) -> (r: Result<Value, Error>)
        ensures
            result_view(r) == compare_spec(TokenType::Lesser, self@, o@),
            r matches Ok(v) ==> model_wf(v@),
    {
        self.compare(TokenType::Lesser, o)
    }

    /// `<=` on two numbers.
    pub fn le(&self, o: &Value) -> (r: Result<Value, Error>)
        ensures
            result_view(r) == compare_spec(TokenType::LesserEqual, self@, o@),
            r matches Ok(v) ==> model_wf(v@),
    {
        self.compare(TokenType::LesserEqual, o)
    }

    /// `>` on two numbers.
    pub fn gt(&self, o: &Value) -> (r: Result<Value, Error>)
        ensures
            result_view(r) == compare_spec(TokenType::Greater, self@, o@),
            r matches Ok(v) ==> model_wf(v@),
    {
        self.compare(TokenType::Greater, o)
    }

    /// `>=` on two numbers.
    pub fn ge(&self, o: &Value) -> (r: Result<Value, Error>)
        ensures
            result_view(r) == compare_spec(TokenType::GreaterEqual, self@, o@),
            r matches Ok(v) ==> model_wf(v@),
    {
        self.compare(TokenType::GreaterEqual, o)
    }

    /// `and` on two booleans.
    pub fn and(&self, o: &Value) -> (r: Result<Value, Error>)
        ensures
            result_view(r) == logic_spec(TokenType::And, self@, o@),
            r matches Ok(v) ==> model_wf(v@),
    {
        match (self, o) {
            (Value::Bool(x), Value::Bool(y)) => Ok(Value::Bool(*x && *y)),
            _ => Err(Error::Type(TokenType::And)),
        }
    }

    /// `or` on two booleans.
    pub fn or(&self, o: &Value) -> (r: Result<Value, Error>)
        ensures
            result_view(r) == logic_spec(TokenType::Or, self@, o@),
            r matches Ok(v) ==> model_wf(v@),
    {
        match (self, o) {
            (Value::Bool(x), Value::Bool(y)) => Ok(Value::Bool(*x || *y)),
            _ => Err(Error::Type(TokenType::Or)),
        }
    }

    /// Unary `-` on a number.
    pub fn neg(&self) -> (r: Result<Value, Error>)
        requires
            model_wf(self@),
        ensures
            result_view(r) == neg_spec(self@),
            r matches Ok(v) ==> model_wf(v@),
    {
        match self {
            Value::Number(x) => number_value(x.neg()),
            _ => Err(Error::Type(TokenType::Minus)),
        }
    }
}

impl Clone for Value {
    fn clone(&self) -> (r: Self)
        ensures
            r@ == self@,
    {
        self.deep_copy()
    }
}

impl PartialEq for Value {
    fn eq(&self, o: &Value) -> (r: bool) {
        self.equals(o)
    }
}

impl vstd::std_specs::cmp::PartialEqSpecImpl for Value {
    open spec fn obeys_eq_spec() -> bool {
        true
    }

    open spec fn eq_spec(&self, o: &Value) -> bool {
        model_eq(self@, o@)
    }
}

} // verus!
