use vstd::prelude::*;
use vstd::string::StringExecFns;
use crate::error::Error;
use crate::value::{field_views, find_name, first_key, keys_unique, lemma_field_views, model_wf, VModel, Value};

verus! {

/// One scope's bindings, in the order they were made.
pub type ScopeModel = Seq<(Seq<char>, VModel)>;

/// The value bound to `name` in one scope.
pub open spec fn scope_get(scope: ScopeModel, name: Seq<char>) -> Option<VModel> {
    if exists|j: int| first_key(scope, name, j) {
        Some(scope[choose|j: int| first_key(scope, name, j)].1)
    } else {
        None
    }
}

/// The value of `name` in the nearest scope that binds it, innermost first.
pub open spec fn lookup(scopes: Seq<ScopeModel>, name: Seq<char>) -> Option<VModel>
    decreases scopes.len(),
{
    if scopes.len() == 0 {
        None
    } else {
        match scope_get(scopes.last(), name) {
            Some(v) => Some(v),
            None => lookup(scopes.drop_last(), name),
        }
    }
}

pub open spec fn scope_views(s: Seq<Vec<(String, Value)>>) -> Seq<ScopeModel> {
    s.map_values(|b: Vec<(String, Value)>| field_views(b@))
}

/// A chain of scopes that map names to values. The innermost scope is the
/// last; a name is bound at most once in each scope, and lookup walks from
/// the innermost scope outwards.
pub struct Environment {
    scopes: Vec<Vec<(String, Value)>>,
}

impl View for Environment {
    type V = Seq<ScopeModel>;

    closed spec fn view(&self) -> Seq<ScopeModel> {
        scope_views(self.scopes@)
    }
}

/// Every scope binds each name once and holds well-formed values.
pub open spec fn scopes_wf(s: Seq<ScopeModel>) -> bool {
    &&& s.len() >= 1
    &&& forall|i: int| 0 <= i < s.len() ==> keys_unique(#[trigger] s[i])
    &&& forall|i: int, j: int| 0 <= i < s.len() && 0 <= j < s[i].len() ==> model_wf(#[trigger] s[i][j].1)
}

impl Environment {
    pub open spec fn wf(&self) -> bool {
        scopes_wf(self@)
    }

    /// A new innermost scope over the bindings of `parent`, which it reads
    /// but does not change; with no parent, a single empty scope.
    pub fn new(parent: Option<&Environment>) -> (r: Environment)
        requires
            parent matches Some(p) ==> p.wf(),
        ensures
            r.wf(),
            parent matches Some(p) ==> r@ == p@.push(Seq::empty()),
            parent is None ==> r@ == seq![Seq::<(Seq<char>, VModel)>::empty()],
    {
        let mut scopes: Vec<Vec<(String, Value)>> = Vec::new();
        match parent {
            Some(p) => {
                let mut i: usize = 0;
                while i < p.scopes.len()
                    invariant
                        i <= p.scopes@.len(),
                        scope_views(scopes@) == scope_views(p.scopes@.subrange(0, i as int)),
                    decreases p.scopes@.len() - i,
                {
                    let copy = copy_scope(&p.scopes[i]);
                    proof {
                        assert(scope_views(p.scopes@.subrange(0, i + 1)) =~= scope_views(
                            p.scopes@.subrange(0, i as int),
                        ).push(field_views(p.scopes@[i as int]@)));
                    }
                    scopes.push(copy);
                    proof {
                        assert(scope_views(scopes@) =~= scope_views(
                            p.scopes@.subrange(0, i as int),
                        ).push(field_views(p.scopes@[i as int]@)));
                    }
                    i += 1;
                }
                proof {
                    assert(p.scopes@.subrange(0, p.scopes@.len() as int) =~= p.scopes@);
                }
            },
            None => {},
        }
        let ghost before = scopes@;
        scopes.push(Vec::new());
        proof {
            assert(field_views(Seq::<(String, Value)>::empty()) =~= Seq::empty());
            assert(scope_views(scopes@) =~= scope_views(before).push(Seq::empty()));
        }
        let r = Environment { scopes };
        proof {
            assert(r@ == scope_views(scopes@));
            if parent is None {
                assert(scope_views(before) =~= Seq::<ScopeModel>::empty());
                assert(r@ =~= seq![Seq::<(Seq<char>, VModel)>::empty()]);
            }
            let s = r@;
            assert forall|i: int| 0 <= i < s.len() implies keys_unique(#[trigger] s[i]) by {
                if i < s.len() - 1 {
                    let p = parent->0;
                    assert(s[i] == p@[i]);
                }
            }
            assert forall|i: int, j: int| 0 <= i < s.len() && 0 <= j < s[i].len() implies model_wf(
                #[trigger] s[i][j].1,
            ) by {
                if i < s.len() - 1 {
                    let p = parent->0;
                    assert(s[i] == p@[i]);
                }
            }
        }
        r
    }

    /// Binds `name` in the innermost scope; a name already bound there is a
    /// redefinition error and leaves the environment unchanged.
    pub fn define(&mut self, name: &str, value: Value) -> (r: Result<(), Error>)
        requires
            old(self).wf(),
            model_wf(value@),
        ensures
            final(self).wf(),
            scope_get(old(self)@.last(), name@) is Some ==> (r matches Err(Error::Redefinition(n))
                && n@ == name@ && final(self)@ == old(self)@),
            scope_get(old(self)@.last(), name@) is None ==> r is Ok && final(self)@ == old(
                self,
            )@.drop_last().push(old(self)@.last().push((name@, value@))),
    {
        let key = String::from_str(name);
        let last = self.scopes.len() - 1;
        proof {
            lemma_field_views(self.scopes@[last as int]@);
            assert(self@[last as int] == field_views(self.scopes@[last as int]@));
        }
        let found = find_name(&self.scopes[last], &key);
        let ghost top = self@.last();
        if found.is_some() {
            proof {
                let j = found->0 as int;
                assert(first_key(top, name@, j));
            }
            return Err(Error::Redefinition(key));
        }
        proof {
            assert forall|j: int| !first_key(top, name@, j) by {
                if 0 <= j < top.len() {
                    assert(top[j].0 == self.scopes@[last as int]@[j].0@);
                }
            }
        }
        let ghost old_scopes = self.scopes@;
        let mut scope = Vec::new();
        std::mem::swap(&mut scope, &mut self.scopes[last]);
        let ghost old_top = scope@;
        scope.push((key, value));
        proof {
            assert(scope@.drop_last() =~= old_top);
            assert(field_views(scope@) == field_views(old_top).push((name@, value@)));
        }
        std::mem::swap(&mut scope, &mut self.scopes[last]);
        proof {
            assert(self.scopes@ == old_scopes.update(last as int, self.scopes@[last as int]));
            assert(self@ =~= old(self)@.drop_last().push(old(self)@.last().push((name@, value@))));
            let s = self@;
            assert forall|i: int| 0 <= i < s.len() implies keys_unique(#[trigger] s[i]) by {
                if i < s.len() - 1 {
                    assert(s[i] == old(self)@[i]);
                } else {
                    assert forall|a: int, b: int| 0 <= a < b < s[i].len() implies s[i][a].0 != s[i][b].0 by {
                        if b == s[i].len() - 1 {
                            assert(!first_key(top, name@, a));
                        }
                    }
                }
            }
            assert forall|i: int, j: int| 0 <= i < s.len() && 0 <= j < s[i].len() implies model_wf(
                #[trigger] s[i][j].1,
            ) by {
                if i < s.len() - 1 {
                    assert(s[i] == old(self)@[i]);
                } else if j < s[i].len() - 1 {
                    assert(s[i][j] == old(self)@[i][j]);
                }
            }
        }
        Ok(())
    }

    /// The value of `name` in the nearest scope that binds it; an error if
    /// no scope does.
    pub fn get(&self, name: &str) -> (r: Result<Value, Error>)
        requires
            self.wf(),
        ensures
            lookup(self@, name@) matches Some(v) ==> (r matches Ok(x) && x@ == v && model_wf(v)),
            lookup(self@, name@) is None ==> (r matches Err(Error::UndefinedVariable(n)) && n@
                == name@),
    {
        let key = String::from_str(name);
        let mut i = self.scopes.len();
        proof {
            assert(self@.subrange(0, i as int) =~= self@);
        }
        while i > 0
            invariant
                i <= self.scopes@.len(),
                self.wf(),
                key@ == name@,
                lookup(self@, name@) == lookup(self@.subrange(0, i as int), name@),
            decreases i,
        {
            let ghost sc = self@.subrange(0, i as int);
            proof {
                lemma_field_views(self.scopes@[i - 1]@);
                assert(sc.last() == field_views(self.scopes@[i - 1]@));
                assert(sc.drop_last() =~= self@.subrange(0, i - 1));
            }
            match find_name(&self.scopes[i - 1], &key) {
                Some(j) => {
                    proof {
                        assert(first_key(sc.last(), name@, j as int));
                        let c = choose|c: int| first_key(sc.last(), name@, c);
                        assert(c == j as int) by {
                            if c < j as int {
                                assert(sc.last()[c].0 == self.scopes@[i - 1]@[c].0@);
                            } else if c > j as int {
                                assert(sc.last()[j as int].0 == self.scopes@[i - 1]@[j as int].0@);
                            }
                        }
                        assert(model_wf(self@[i - 1][j as int].1));
                    }
                    return Ok(self.scopes[i - 1][j].1.deep_copy());
                },
                None => {
                    proof {
                        assert forall|j: int| !first_key(sc.last(), name@, j) by {
                            if 0 <= j < sc.last().len() {
                                assert(sc.last()[j].0 == self.scopes@[i - 1]@[j].0@);
                            }
                        }
                    }
                },
            }
            i -= 1;
        }
        Err(Error::UndefinedVariable(key))
    }

    /// Opens a new, empty innermost scope.
    pub fn push_scope(&mut self)
        requires
            old(self).wf(),
        ensures
            final(self).wf(),
            final(self)@ == old(self)@.push(Seq::empty()),
    {
        self.scopes.push(Vec::new());
        proof {
            assert(field_views(Seq::<(String, Value)>::empty()) =~= Seq::empty());
            assert(self@ =~= old(self)@.push(Seq::empty()));
            let s = self@;
            assert forall|i: int| 0 <= i < s.len() implies keys_unique(#[trigger] s[i]) by {
                if i < s.len() - 1 {
                    assert(s[i] == old(self)@[i]);
                }
            }
            assert forall|i: int, j: int| 0 <= i < s.len() && 0 <= j < s[i].len() implies model_wf(
                #[trigger] s[i][j].1,
            ) by {
                assert(s[i] == old(self)@[i]);
            }
        }
    }

    /// Closes the innermost scope, dropping its bindings; the outermost scope stays.
    pub fn pop_scope(&mut self)
        requires
            old(self).wf(),
        ensures
            final(self).wf(),
            old(self)@.len() > 1 ==> final(self)@ == old(self)@.drop_last(),
            old(self)@.len() == 1 ==> final(self)@ == old(self)@,
    {
        if self.scopes.len() > 1 {
            self.scopes.pop();
            proof {
                assert(self@ =~= old(self)@.drop_last());
                let s = self@;
                assert forall|i: int| 0 <= i < s.len() implies keys_unique(#[trigger] s[i]) by {
                    assert(s[i] == old(self)@[i]);
                }
                assert forall|i: int, j: int| 0 <= i < s.len() && 0 <= j < s[i].len() implies model_wf(
                    #[trigger] s[i][j].1,
                ) by {
                    assert(s[i] == old(self)@[i]);
                }
            }
        }
    }
}

/// A binding made in a new inner scope hides an outer binding of the same
/// name and leaves every other name as it was; closing the inner scope gives
/// back the outer scopes unchanged. Binding a name a second time in one scope
/// is refused (`define` fails when `scope_get` finds the name).
pub proof fn lemma_shadowing(env: Seq<ScopeModel>, name: Seq<char>, v: VModel, w: VModel)
    requires
        scopes_wf(env),
    ensures
        lookup(env.push(seq![(name, v)]), name) == Some(v),
        forall|n: Seq<char>| n != name ==> lookup(env.push(seq![(name, v)]), n) == lookup(env, n),
        env.push(seq![(name, v)]).drop_last() == env,
        scope_get(env.last().push((name, w)), name) is Some,
{
    let inner = env.push(seq![(name, v)]);
    assert(first_key(inner.last(), name, 0));
    assert(inner.drop_last() =~= env);
    assert forall|n: Seq<char>| n != name implies lookup(inner, n) == lookup(env, n) by {
        assert(!(exists|j: int| first_key(inner.last(), n, j)));
    }
    let s = env.last().push((name, w));
    lemma_first_key_exists(s, name, s.len() - 1);
}

/// A name that occurs in a scope has a first occurrence.
proof fn lemma_first_key_exists(s: ScopeModel, name: Seq<char>, j: int)
    requires
        0 <= j < s.len(),
        s[j].0 == name,
    ensures
        exists|k: int| first_key(s, name, k),
    decreases j,
{
    if forall|y: int| 0 <= y < j ==> s[y].0 != name {
        assert(first_key(s, name, j));
    } else {
        let y = choose|y: int| 0 <= y < j && s[y].0 == name;
        lemma_first_key_exists(s, name, y);
    }
}

/// A copy of one scope.
fn copy_scope(s: &Vec<(String, Value)>) -> (r: Vec<(String, Value)>)
    ensures
        field_views(r@) == field_views(s@),
{
    let mut out: Vec<(String, Value)> = Vec::new();
    let mut i: usize = 0;
    while i < s.len()
        invariant
            i <= s@.len(),
            out@.len() == i,
            forall|k: int|
                0 <= k < i ==> (#[trigger] out@[k]).0@ == s@[k].0@ && out@[k].1@ == s@[k].1@,
        decreases s@.len() - i,
    {
        out.push((s[i].0.clone(), s[i].1.deep_copy()));
        i += 1;
    }
    proof {
        lemma_field_views(out@);
        lemma_field_views(s@);
        assert(field_views(out@) =~= field_views(s@));
    }
    out
}

} // verus!
