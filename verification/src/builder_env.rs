//! The variables the builder knows while it lowers a body: for each name,
//! the code that reads it and the name of its static type, and for each
//! static type name, the variables of that type in the order they were
//! bound.
use crate::expr::EirExpr;
use crate::text::str_eq;
use vstd::prelude::*;

verus! {

// ---------------------------------------------------------------------------
// Lists keyed by name
// ---------------------------------------------------------------------------

/// No name is listed twice.
pub open spec fn keys_unique<V>(es: Seq<(String, V)>) -> bool {
    forall|i: int, j: int| 0 <= i < j < es.len() ==> (#[trigger] es[i]).0@ != (#[trigger] es[j]).0@
}

/// What a list keyed by name holds: the value listed for each name.
pub open spec fn keyed<V>(es: Seq<(String, V)>) -> Map<Seq<char>, V> {
    Map::new(
        |k: Seq<char>| exists|i: int| 0 <= i < es.len() && es[i].0@ == k,
        |k: Seq<char>| es[choose|i: int| 0 <= i < es.len() && es[i].0@ == k].1,
    )
}

proof fn lemma_keyed_at<V>(es: Seq<(String, V)>, i: int)
    requires
        keys_unique(es),
        0 <= i < es.len(),
    ensures
        keyed(es).contains_key(es[i].0@),
        keyed(es)[es[i].0@] == es[i].1,
{
    let k = es[i].0@;
    assert(exists|j: int| 0 <= j < es.len() && es[j].0@ == k);
    let j = choose|j: int| 0 <= j < es.len() && es[j].0@ == k;
    if j < i {
        assert(es[j].0@ != es[i].0@);
    } else if i < j {
        assert(es[i].0@ != es[j].0@);
    }
}

/// Replacing the entry at `i` by one with the same name sets that name.
proof fn lemma_keyed_update<V>(before: Seq<(String, V)>, i: int, e: (String, V))
    requires
        keys_unique(before),
        0 <= i < before.len(),
        e.0@ == before[i].0@,
    ensures
        keys_unique(before.update(i, e)),
        keyed(before.update(i, e)) == keyed(before).insert(e.0@, e.1),
{
    let after = before.update(i, e);
    assert forall|a: int, b: int| 0 <= a < b < after.len() implies (#[trigger] after[a]).0@ != (
    #[trigger] after[b]).0@ by {
        assert(after[a].0@ == before[a].0@ && after[b].0@ == before[b].0@);
    }
    lemma_keyed_at(after, i);
    assert forall|k: Seq<char>| #[trigger] keyed(after).contains_key(k) == keyed(before).insert(
        e.0@,
        e.1,
    ).contains_key(k) by {
        if keyed(before).contains_key(k) {
            let j = choose|j: int| 0 <= j < before.len() && before[j].0@ == k;
            assert(after[j].0@ == k);
        }
        if keyed(after).contains_key(k) {
            let j = choose|j: int| 0 <= j < after.len() && after[j].0@ == k;
            assert(before[j].0@ == k);
        }
    }
    assert forall|k: Seq<char>| #[trigger] keyed(after).contains_key(k) implies keyed(after)[k]
        == keyed(before).insert(e.0@, e.1)[k] by {
        let j = choose|j: int| 0 <= j < after.len() && after[j].0@ == k;
        lemma_keyed_at(after, j);
        if j != i {
            assert(after[j] == before[j]);
            lemma_keyed_at(before, j);
        }
    }
    assert(keyed(after) =~= keyed(before).insert(e.0@, e.1));
}

/// Adding an entry for a name not listed sets that name.
proof fn lemma_keyed_push<V>(before: Seq<(String, V)>, e: (String, V))
    requires
        keys_unique(before),
        !keyed(before).contains_key(e.0@),
    ensures
        keys_unique(before.push(e)),
        keyed(before.push(e)) == keyed(before).insert(e.0@, e.1),
{
    let after = before.push(e);
    let n = before.len() as int;
    assert forall|a: int, b: int| 0 <= a < b < after.len() implies (#[trigger] after[a]).0@ != (
    #[trigger] after[b]).0@ by {
        assert(after[a] == before[a]);
        if b < n {
            assert(after[b] == before[b]);
        } else {
            assert(!(0 <= a < before.len() && before[a].0@ == e.0@));
        }
    }
    lemma_keyed_at(after, n);
    assert forall|k: Seq<char>| #[trigger] keyed(after).contains_key(k) == keyed(before).insert(
        e.0@,
        e.1,
    ).contains_key(k) by {
        if keyed(before).contains_key(k) {
            let j = choose|j: int| 0 <= j < before.len() && before[j].0@ == k;
            assert(after[j].0@ == k);
        }
        if keyed(after).contains_key(k) && k != e.0@ {
            let j = choose|j: int| 0 <= j < after.len() && after[j].0@ == k;
            assert(j < n);
            assert(before[j].0@ == k);
        }
    }
    assert forall|k: Seq<char>| #[trigger] keyed(after).contains_key(k) implies keyed(after)[k]
        == keyed(before).insert(e.0@, e.1)[k] by {
        let j = choose|j: int| 0 <= j < after.len() && after[j].0@ == k;
        lemma_keyed_at(after, j);
        if j != n {
            assert(after[j] == before[j]);
            lemma_keyed_at(before, j);
        }
    }
    assert(keyed(after) =~= keyed(before).insert(e.0@, e.1));
}

/// Removing the entry at `i` removes its name.
proof fn lemma_keyed_remove<V>(before: Seq<(String, V)>, i: int)
    requires
        keys_unique(before),
        0 <= i < before.len(),
    ensures
        keys_unique(before.remove(i)),
        keyed(before.remove(i)) == keyed(before).remove(before[i].0@),
{
    let after = before.remove(i);
    let k0 = before[i].0@;
    assert forall|a: int, b: int| 0 <= a < b < after.len() implies (#[trigger] after[a]).0@ != (
    #[trigger] after[b]).0@ by {
        let a2 = if a < i { a } else { a + 1 };
        let b2 = if b < i { b } else { b + 1 };
        assert(after[a] == before[a2] && after[b] == before[b2]);
    }
    assert forall|k: Seq<char>| #[trigger] keyed(after).contains_key(k) == keyed(before).remove(
        k0,
    ).contains_key(k) by {
        if keyed(after).contains_key(k) {
            let j = choose|j: int| 0 <= j < after.len() && after[j].0@ == k;
            let j2 = if j < i { j } else { j + 1 };
            assert(after[j] == before[j2]);
            assert(j2 != i);
            assert(before[j2].0@ != before[i].0@ || j2 == i);
            if j2 < i {
                assert(before[j2].0@ != before[i].0@);
            } else {
                assert(before[i].0@ != before[j2].0@);
            }
        }
        if keyed(before).contains_key(k) && k != k0 {
            let j = choose|j: int| 0 <= j < before.len() && before[j].0@ == k;
            assert(j != i);
            let j2 = if j < i { j } else { j - 1 };
            assert(after[j2] == before[j]);
        }
    }
    assert forall|k: Seq<char>| #[trigger] keyed(after).contains_key(k) implies keyed(after)[k]
        == keyed(before).remove(k0)[k] by {
        let j = choose|j: int| 0 <= j < after.len() && after[j].0@ == k;
        lemma_keyed_at(after, j);
        let j2 = if j < i { j } else { j + 1 };
        assert(after[j] == before[j2]);
        lemma_keyed_at(before, j2);
    }
    assert(keyed(after) =~= keyed(before).remove(k0));
}

/// The position of the entry for a name.
fn position<V>(es: &Vec<(String, V)>, name: &str) -> (r: Option<usize>)
    ensures
        match r {
            Some(i) => i < es@.len() && es@[i as int].0@ == name@,
            None => !keyed(es@).contains_key(name@),
        },
{
    let mut i: usize = 0;
    while i < es.len()
        invariant
            i <= es.len(),
            forall|j: int| 0 <= j < i ==> es@[j].0@ != name@,
        decreases es.len() - i,
    {
        if str_eq(es[i].0.as_str(), name) {
            return Some(i);
        }
        i = i + 1;
    }
    None
}

// ---------------------------------------------------------------------------
// The environment
// ---------------------------------------------------------------------------

/// A variable: the code that reads it and the name of its static type,
/// where it has one.
#[derive(Debug)]
pub struct VarInfo {
    pub code: EirExpr,
    pub static_type: Option<String>,
}

/// The text of an optional name.
pub open spec fn opt_text(t: Option<String>) -> Option<Seq<char>> {
    match t {
        Some(s) => Some(s@),
        None => None,
    }
}

/// The texts of a list of names.
pub open spec fn name_texts(v: Seq<String>) -> Seq<Seq<char>> {
    v.map_values(|s: String| s@)
}

/// The names of the list other than `n`, in order.
pub open spec fn without(names: Seq<Seq<char>>, n: Seq<char>) -> Seq<Seq<char>>
    decreases names.len(),
{
    if names.len() == 0 {
        names
    } else {
        let rest = without(names.drop_last(), n);
        if names.last() == n {
            rest
        } else {
            rest.push(names.last())
        }
    }
}

/// The index of variables by static type after `name`, which had static
/// type `old_type`, is rebound with static type `new_type`: `name` leaves
/// the list of its old type, which goes when it is left empty, and joins
/// the end of the list of its new type.
pub open spec fn reindexed(
    index: Map<Seq<char>, Seq<Seq<char>>>,
    name: Seq<char>,
    old_type: Option<Seq<char>>,
    new_type: Option<Seq<char>>,
) -> Map<Seq<char>, Seq<Seq<char>>> {
    let cleared = match old_type {
        Some(t) => if index.contains_key(t) {
            let left = without(index[t], name);
            if left.len() == 0 {
                index.remove(t)
            } else {
                index.insert(t, left)
            }
        } else {
            index
        },
        None => index,
    };
    match new_type {
        Some(t) => cleared.insert(
            t,
            if cleared.contains_key(t) {
                cleared[t]
            } else {
                Seq::empty()
            }.push(name),
        ),
        None => cleared,
    }
}

/// The variables the builder knows, and for each static type name the
/// variables of that type.
pub struct Env {
    pub vars: Vec<(String, VarInfo)>,
    pub vars_by_static_type: Vec<(String, Vec<String>)>,
}

impl Env {
    /// No name is bound twice and no type is indexed twice.
    pub open spec fn wf(&self) -> bool {
        keys_unique(self.vars@) && keys_unique(self.vars_by_static_type@)
    }

    /// The variables, by name.
    pub open spec fn var_map(&self) -> Map<Seq<char>, VarInfo> {
        keyed(self.vars@)
    }

    /// The names of the variables of each static type, in the order they
    /// were bound.
    pub open spec fn type_index(&self) -> Map<Seq<char>, Seq<Seq<char>>> {
        keyed(self.vars_by_static_type@).map_values(|v: Vec<String>| name_texts(v@))
    }

    /// An environment with no variables.
    pub fn new() -> (r: Self)
        ensures
            r.wf(),
            r.var_map() == Map::<Seq<char>, VarInfo>::empty(),
            r.type_index() == Map::<Seq<char>, Seq<Seq<char>>>::empty(),
    {
        let r = Env { vars: Vec::new(), vars_by_static_type: Vec::new() };
        assert(r.var_map() =~= Map::<Seq<char>, VarInfo>::empty());
        assert(r.type_index() =~= Map::<Seq<char>, Seq<Seq<char>>>::empty());
        r
    }

    /// Binds `name` to `code` with the given static type name, replacing an
    /// earlier binding of the name, and keeps the index by static type.
    pub fn insert(&mut self, name: &str, code: EirExpr, static_type: Option<&str>)
        requires
            old(self).wf(),
        ensures
            final(self).wf(),
            final(self).var_map().dom() == old(self).var_map().dom().insert(name@),
            final(self).var_map()[name@].code == code,
            opt_text(final(self).var_map()[name@].static_type) == match static_type {
                Some(t) => Some(t@),
                None => None::<Seq<char>>,
            },
            forall|n: Seq<char>| n != name@ && old(self).var_map().contains_key(n) ==> #[trigger] final(self).var_map()[n]
                == old(self).var_map()[n],
            final(self).type_index() == reindexed(
                old(self).type_index(),
                name@,
                if old(self).var_map().contains_key(name@) {
                    opt_text(old(self).var_map()[name@].static_type)
                } else {
                    None
                },
                match static_type {
                    Some(t) => Some(t@),
                    None => None::<Seq<char>>,
                },
            ),
    {
        let ghost old_vars = self.vars@;
        let info = VarInfo {
            code,
            static_type: match static_type {
                Some(t) => Some(t.to_owned()),
                None => None,
            },
        };
        let ghost info_g = info;
        let previous: Option<String> = match position(&self.vars, name) {
            Some(p) => {
                let (key, old_info) = self.vars.remove(p);
                self.vars.insert(p, (key, info));
                proof {
                    assert(self.vars@ =~= old_vars.update(p as int, (old_vars[p as int].0, info_g)));
                    lemma_keyed_update(old_vars, p as int, (old_vars[p as int].0, info_g));
                    lemma_keyed_at(old_vars, p as int);
                }
                old_info.static_type
            },
            None => {
                let key = name.to_owned();
                proof {
                    lemma_keyed_push(old_vars, (key, info_g));
                }
                self.vars.push((key, info));
                None
            },
        };
        proof {
            assert(keys_unique(self.vars@));
        }
        self.reindex(name, previous, static_type);
    }

    fn reindex(&mut self, name: &str, previous: Option<String>, static_type: Option<&str>)
        requires
            keys_unique(old(self).vars_by_static_type@),
        ensures
            final(self).vars == old(self).vars,
            keys_unique(final(self).vars_by_static_type@),
            final(self).type_index() == reindexed(
                old(self).type_index(),
                name@,
                opt_text(previous),
                match static_type {
                    Some(t) => Some(t@),
                    None => None::<Seq<char>>,
                },
            ),
    {
        let ghost idx0 = self.type_index();
        if let Some(old_type) = &previous {
            if let Some(q) = position(&self.vars_by_static_type, old_type.as_str()) {
                let ghost before = self.vars_by_static_type@;
                proof {
                    lemma_keyed_at(before, q as int);
                }
                let (key, names) = self.vars_by_static_type.remove(q);
                let mut left: Vec<String> = Vec::new();
                let mut i: usize = 0;
                while i < names.len()
                    invariant
                        i <= names.len(),
                        name_texts(left@) == without(name_texts(names@).take(i as int), name@),
                    decreases names.len() - i,
                {
                    proof {
                        let t = name_texts(names@).take(i + 1);
                        assert(t.drop_last() =~= name_texts(names@).take(i as int));
                        assert(t.last() == names@[i as int]@);
                    }
                    if !str_eq(names[i].as_str(), name) {
                        let ghost l0 = left@;
                        left.push(names[i].clone());
                        proof {
                            assert(name_texts(left@) =~= name_texts(l0).push(names@[i as int]@));
                        }
                    }
                    i = i + 1;
                }
                proof {
                    assert(name_texts(names@).take(names@.len() as int) =~= name_texts(names@));
                }
                if left.len() == 0 {
                    proof {
                        lemma_keyed_remove(before, q as int);
                        assert(self.vars_by_static_type@ =~= before.remove(q as int));
                        assert(self.type_index() =~= idx0.remove(old_type@));
                    }
                } else {
                    let ghost e = (key, left);
                    self.vars_by_static_type.insert(q, (key, left));
                    proof {
                        assert(self.vars_by_static_type@ =~= before.update(q as int, e));
                        lemma_keyed_update(before, q as int, e);
                        assert(name_texts(e.1@).len() == e.1@.len());
                        assert(self.type_index() =~= idx0.insert(old_type@, name_texts(e.1@)));
                    }
                }
            } else {
                proof {
                    assert(!idx0.contains_key(old_type@));
                }
            }
        }
        let ghost idx1 = self.type_index();
        if let Some(t) = static_type {
            match position(&self.vars_by_static_type, t) {
                Some(q) => {
                    let ghost before = self.vars_by_static_type@;
                    proof {
                        lemma_keyed_at(before, q as int);
                    }
                    let (key, mut names) = self.vars_by_static_type.remove(q);
                    let ghost n0 = names@;
                    names.push(name.to_owned());
                    let ghost e = (key, names);
                    self.vars_by_static_type.insert(q, (key, names));
                    proof {
                        assert(self.vars_by_static_type@ =~= before.update(q as int, e));
                        lemma_keyed_update(before, q as int, e);
                        assert(name_texts(e.1@) =~= name_texts(n0).push(name@));
                        assert(self.type_index() =~= idx1.insert(t@, idx1[t@].push(name@)));
                    }
                },
                None => {
                    let mut names: Vec<String> = Vec::new();
                    names.push(name.to_owned());
                    let ghost before = self.vars_by_static_type@;
                    let key = t.to_owned();
                    let ghost e = (key, names);
                    proof {
                        lemma_keyed_push(before, e);
                    }
                    self.vars_by_static_type.push((key, names));
                    proof {
                        assert(name_texts(e.1@) =~= Seq::<Seq<char>>::empty().push(name@));
                        assert(self.type_index() =~= idx1.insert(t@, Seq::<Seq<char>>::empty().push(name@)));
                    }
                },
            }
        }
    }

    /// The names of the variables of a static type, in the order they were
    /// bound; none where no variable has that type.
    pub fn vars_of_type(&self, static_type: &str) -> (r: Option<&Vec<String>>)
        requires
            self.wf(),
        ensures
            match r {
                Some(v) => self.type_index().contains_key(static_type@) && name_texts(v@)
                    == self.type_index()[static_type@],
                None => !self.type_index().contains_key(static_type@),
            },
    {
        match position(&self.vars_by_static_type, static_type) {
            Some(q) => {
                proof {
                    lemma_keyed_at(self.vars_by_static_type@, q as int);
                }
                Some(&self.vars_by_static_type[q].1)
            },
            None => None,
        }
    }
}

} // verus!
