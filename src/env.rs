//! The variable environment: names bound to values, the last write winning.
use vstd::prelude::*;

verus! {

/// Variable bindings, kept in the order in which names were first bound.
#[derive(Debug)]
pub struct Env {
    bindings: Vec<(String, i64)>,
}

/// The map that a sequence of bindings stands for: a later binding of a
/// name overrides an earlier one.
pub open spec fn bindings_map(s: Seq<(String, i64)>) -> Map<Seq<char>, i64>
    decreases s.len(),
{
    if s.len() == 0 {
        Map::empty()
    } else {
        bindings_map(s.drop_last()).insert(s.last().0@, s.last().1)
    }
}

proof fn lemma_unbound_suffix(s: Seq<(String, i64)>, i: int, k: Seq<char>)
    requires
        0 <= i <= s.len(),
        forall|t: int| i <= t < s.len() ==> s[t].0@ != k,
    ensures
        bindings_map(s).contains_key(k) == bindings_map(s.take(i)).contains_key(k),
        bindings_map(s).contains_key(k) ==> bindings_map(s)[k] == bindings_map(s.take(i))[k],
    decreases s.len(),
{
    if i == s.len() {
        assert(s.take(i) =~= s);
    } else {
        let d = s.drop_last();
        assert(d.take(i) =~= s.take(i));
        lemma_unbound_suffix(d, i, k);
    }
}

proof fn lemma_overwrite_last(s: Seq<(String, i64)>, j: int, entry: (String, i64))
    requires
        0 <= j < s.len(),
        s[j].0@ == entry.0@,
        forall|t: int| j < t < s.len() ==> s[t].0@ != entry.0@,
    ensures
        bindings_map(s.update(j, entry)) == bindings_map(s).insert(entry.0@, entry.1),
    decreases s.len(),
{
    let u = s.update(j, entry);
    if j == s.len() - 1 {
        assert(u.drop_last() =~= s.drop_last());
        assert(bindings_map(u) =~= bindings_map(s).insert(entry.0@, entry.1));
    } else {
        let d = s.drop_last();
        assert(u.drop_last() =~= d.update(j, entry));
        lemma_overwrite_last(d, j, entry);
        assert(bindings_map(u) =~= bindings_map(s).insert(entry.0@, entry.1));
    }
}

impl View for Env {
    type V = Map<Seq<char>, i64>;

    closed spec fn view(&self) -> Map<Seq<char>, i64> {
        bindings_map(self.bindings@)
    }
}

impl Env {
    /// An environment with no bindings.
    pub fn new() -> (r: Env)
        ensures
            r@ == Map::<Seq<char>, i64>::empty(),
    {
        Env { bindings: Vec::new() }
    }

    /// The index of the latest binding of `name`.
    fn position(&self, name: &String) -> (r: Option<usize>)
        ensures
            match r {
                Some(j) => j < self.bindings@.len() && self.bindings@[j as int].0@ == name@
                    && forall|t: int| j < t < self.bindings@.len() ==> self.bindings@[t].0@ != name@,
                None => forall|t: int| 0 <= t < self.bindings@.len() ==> self.bindings@[t].0@ != name@,
            },
    {
        let mut i: usize = self.bindings.len();
        while i > 0
            invariant
                i <= self.bindings@.len(),
                forall|t: int| i <= t < self.bindings@.len() ==> self.bindings@[t].0@ != name@,
            decreases i,
        {
            if self.bindings[i - 1].0 == *name {
                return Some(i - 1);
            }
            i = i - 1;
        }
        None
    }

    /// The value bound to `name`, if any.
    pub fn get(&self, name: &String) -> (r: Option<i64>)
        ensures
            r == (if self@.contains_key(name@) { Some(self@[name@]) } else { None::<i64> }),
    {
        let s = Ghost(self.bindings@);
        match self.position(name) {
            Some(j) => {
                proof {
                    lemma_unbound_suffix(s@, j + 1, name@);
                    assert(s@.take(j + 1).drop_last() =~= s@.take(j as int));
                }
                Some(self.bindings[j].1)
            },
            None => {
                proof {
                    lemma_unbound_suffix(s@, 0, name@);
                }
                None
            },
        }
    }

    /// Binds `name` to `value`, replacing any earlier binding of it.
    pub fn insert(&mut self, name: String, value: i64)
        ensures
            final(self)@ == old(self)@.insert(name@, value),
    {
        match self.position(&name) {
            Some(j) => {
                proof {
                    lemma_overwrite_last(self.bindings@, j as int, (name, value));
                }
                self.bindings.set(j, (name, value));
            },
            None => {
                let ghost s = self.bindings@;
                self.bindings.push((name, value));
                proof {
                    assert(self.bindings@.drop_last() =~= s);
                }
            },
        }
    }
}

} // verus!
