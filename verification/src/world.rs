//! The world: the one shared namespace, which binds names to values and
//! counts, per name, the commits made against it.

use vstd::prelude::*;
use crate::value::{Val, Value};

verus! {

/// What a world holds, as mathematics. A name without a binding is absent
/// from `values`; a name whose generation is 0 is absent from `generations`.
pub ghost struct WorldState {
    pub values: Map<Seq<char>, Val>,
    pub generations: Map<Seq<char>, nat>,
}

impl WorldState {
    /// The world in which nothing is bound and every generation is 0.
    pub open spec fn empty() -> WorldState {
        WorldState { values: Map::empty(), generations: Map::empty() }
    }

    /// The value bound to `name`, if any.
    pub open spec fn value_of(self, name: Seq<char>) -> Option<Val> {
        if self.values.contains_key(name) {
            Some(self.values[name])
        } else {
            None
        }
    }

    /// The generation of `name`: 0 for a name never committed to.
    pub open spec fn generation_of(self, name: Seq<char>) -> nat {
        if self.generations.contains_key(name) {
            self.generations[name]
        } else {
            0
        }
    }

    /// The world after `name` is bound to `value`; generations stay.
    pub open spec fn set(self, name: Seq<char>, value: Val) -> WorldState {
        WorldState { values: self.values.insert(name, value), generations: self.generations }
    }

    /// The world after one commit against `name`; bindings stay.
    pub open spec fn advance(self, name: Seq<char>) -> WorldState {
        WorldState {
            values: self.values,
            generations: self.generations.insert(name, self.generation_of(name) + 1),
        }
    }
}

/// The shared namespace. Names are kept in the order in which they were
/// first seen; no name is kept twice.
pub struct World {
    names: Vec<String>,
    values: Vec<Option<Value>>,
    generations: Vec<usize>,
}

spec fn present(names: Seq<String>, n: Seq<char>) -> bool {
    exists|i: int| 0 <= i < names.len() && (#[trigger] names[i])@ == n
}

spec fn index_of(names: Seq<String>, n: Seq<char>) -> int {
    choose|i: int| 0 <= i < names.len() && (#[trigger] names[i])@ == n
}

spec fn no_repeats(names: Seq<String>) -> bool {
    forall|i: int, j: int|
        0 <= i < j < names.len() ==> (#[trigger] names[i])@ != (#[trigger] names[j])@
}

proof fn lemma_index_of(names: Seq<String>, i: int)
    requires
        no_repeats(names),
        0 <= i < names.len(),
    ensures
        present(names, names[i]@),
        index_of(names, names[i]@) == i,
{
    let k = index_of(names, names[i]@);
    if k < i {
        assert(names[k]@ != names[i]@);
    } else if i < k {
        assert(names[i]@ != names[k]@);
    }
}

proof fn lemma_index_of_pushed(names: Seq<String>, fresh: String, n: Seq<char>)
    requires
        no_repeats(names),
        !present(names, fresh@),
    ensures
        no_repeats(names.push(fresh)),
        present(names.push(fresh), n) == (present(names, n) || n == fresh@),
        present(names, n) ==> index_of(names.push(fresh), n) == index_of(names, n),
        n == fresh@ ==> index_of(names.push(fresh), n) == names.len(),
{
    let after = names.push(fresh);
    assert forall|i: int, j: int| 0 <= i < j < after.len() implies (#[trigger] after[i])@ != (
    #[trigger] after[j])@ by {
        if j == names.len() {
            assert(names[i]@ != fresh@);
        } else {
            assert(names[i]@ != names[j]@);
        }
    }
    if present(names, n) {
        let k = index_of(names, n);
        assert(after[k]@ == n);
        lemma_index_of(after, k);
    }
    if n == fresh@ {
        assert(after[names.len() as int]@ == n);
        lemma_index_of(after, names.len() as int);
    }
    if present(after, n) && n != fresh@ {
        let k = index_of(after, n);
        assert(names[k]@ == n);
    }
}

impl World {
    /// The representation is consistent.
    pub closed spec fn wf(&self) -> bool {
        &&& self.names.len() == self.values.len()
        &&& self.names.len() == self.generations.len()
        &&& no_repeats(self.names@)
        &&& forall|i: int|
            0 <= i < self.names.len() ==> (#[trigger] self.values@[i]) is Some
                || self.generations@[i] > 0
    }

    spec fn value_in(&self, n: Seq<char>) -> Option<Val> {
        if present(self.names@, n) {
            match self.values@[index_of(self.names@, n)] {
                Some(v) => Some(v@),
                None => None,
            }
        } else {
            None
        }
    }

    spec fn generation_in(&self, n: Seq<char>) -> nat {
        if present(self.names@, n) {
            self.generations@[index_of(self.names@, n)] as nat
        } else {
            0
        }
    }

    /// What the world holds.
    pub closed spec fn view(&self) -> WorldState {
        WorldState {
            values: Map::new(
                |n: Seq<char>| self.value_in(n) is Some,
                |n: Seq<char>| self.value_in(n).unwrap(),
            ),
            generations: Map::new(
                |n: Seq<char>| self.generation_in(n) > 0,
                |n: Seq<char>| self.generation_in(n),
            ),
        }
    }

    /// The names the world knows, in the order in which it first saw them.
    pub closed spec fn name_order(&self) -> Seq<Seq<char>> {
        Seq::new(self.names@.len(), |i: int| self.names@[i]@)
    }

    /// Every generation of a world fits the machine word that counts it.
    pub proof fn lemma_generation_bounded(&self, name: Seq<char>)
        ensures
            self@.generation_of(name) <= usize::MAX,
    {
    }

    /// A world with no binding and every generation at 0.
    pub fn new() -> (w: World)
        ensures
            w.wf(),
            w@ == WorldState::empty(),
            w.name_order() == Seq::<Seq<char>>::empty(),
    {
        let w = World { names: Vec::new(), values: Vec::new(), generations: Vec::new() };
        assert(w@.values =~= Map::empty());
        assert(w@.generations =~= Map::empty());
        assert(w.name_order() =~= Seq::<Seq<char>>::empty());
        w
    }

    fn find(&self, name: &String) -> (r: Option<usize>)
        requires
            self.wf(),
        ensures
            match r {
                Some(i) => i < self.names.len() && self.names@[i as int]@ == name@ && present(
                    self.names@,
                    name@,
                ) && index_of(self.names@, name@) == i,
                None => !present(self.names@, name@),
            },
    {
        let mut i: usize = 0;
        while i < self.names.len()
            invariant
                i <= self.names.len(),
                self.wf(),
                forall|k: int| 0 <= k < i ==> (#[trigger] self.names@[k])@ != name@,
            decreases self.names.len() - i,
        {
            if self.names[i] == *name {
                proof {
                    lemma_index_of(self.names@, i as int);
                }
                return Some(i);
            }
            i += 1;
        }
        None
    }

    /// The value bound to `name`, or `None` where the name was never bound.
    pub fn get(&self, name: &String) -> (r: Option<&Value>)
        requires
            self.wf(),
        ensures
            match r {
                Some(v) => self@.value_of(name@) == Some(v@),
                None => self@.value_of(name@) is None,
            },
    {
        match self.find(name) {
            Some(i) => self.values[i].as_ref(),
            None => None,
        }
    }

    /// The generation of `name`; 0 for a name never committed to.
    pub fn get_generation(&self, name: &String) -> (r: usize)
        requires
            self.wf(),
        ensures
            r == self@.generation_of(name@),
    {
        match self.find(name) {
            Some(i) => self.generations[i],
            None => 0,
        }
    }

    /// The names the world knows, in the order in which they were first
    /// seen: those that are bound and those with a generation above 0,
    /// each once.
    pub fn names(&self) -> (r: Vec<String>)
        requires
            self.wf(),
        ensures
            r.len() == self.name_order().len(),
            forall|i: int| 0 <= i < r.len() ==> (#[trigger] r@[i])@ == self.name_order()[i],
            forall|n: Seq<char>|
                (exists|i: int| 0 <= i < r.len() && (#[trigger] r@[i])@ == n) == (
                self@.values.contains_key(n) || self@.generations.contains_key(n)),
            forall|i: int, j: int|
                0 <= i < j < r.len() ==> (#[trigger] r@[i])@ != (#[trigger] r@[j])@,
    {
        let mut out: Vec<String> = Vec::new();
        let mut i: usize = 0;
        while i < self.names.len()
            invariant
                i <= self.names.len(),
                out.len() == i,
                forall|k: int| 0 <= k < i ==> (#[trigger] out@[k])@ == self.names@[k]@,
            decreases self.names.len() - i,
        {
            out.push(self.names[i].clone());
            i += 1;
        }
        proof {
            assert forall|n: Seq<char>|
                (exists|i: int| 0 <= i < out.len() && (#[trigger] out@[i])@ == n) == (
                self@.values.contains_key(n) || self@.generations.contains_key(n)) by {
                if exists|i: int| 0 <= i < out.len() && (#[trigger] out@[i])@ == n {
                    let k = choose|i: int| 0 <= i < out.len() && (#[trigger] out@[i])@ == n;
                    assert(self.names@[k]@ == n);
                    lemma_index_of(self.names@, k);
                    assert(self.values@[k] is Some || self.generations@[k] > 0);
                }
                if self@.values.contains_key(n) || self@.generations.contains_key(n) {
                    assert(present(self.names@, n));
                    let k = index_of(self.names@, n);
                    assert(out@[k]@ == n);
                }
            }
            assert forall|i: int, j: int| 0 <= i < j < out.len() implies (#[trigger] out@[i])@ != (
            #[trigger] out@[j])@ by {
                assert(self.names@[i]@ != self.names@[j]@);
            }
        }
        out
    }

    /// Binds `name` to `value`, whatever it was bound to. No generation
    /// changes.
    pub fn set(&mut self, name: &String, value: Value)
        requires
            old(self).wf(),
        ensures
            final(self).wf(),
            final(self)@ == old(self)@.set(name@, value@),
            final(self).name_order() == if old(self).name_order().contains(name@) {
                old(self).name_order()
            } else {
                old(self).name_order().push(name@)
            },
    {
        let ghost before = *self;
        match self.find(name) {
            Some(i) => {
                self.values.set(i, Some(value));
            },
            None => {
                self.names.push(name.clone());
                self.values.push(Some(value));
                self.generations.push(0);
            },
        }
        proof {
            let target = before@.set(name@, value@);
            assert forall|n: Seq<char>|
                #![trigger self.value_in(n)]
                #![trigger self.generation_in(n)]
                self.value_in(n) == (if n == name@ {
                    Some(value@)
                } else {
                    before.value_in(n)
                }) && self.generation_in(n) == before.generation_in(n) by {
                if !present(before.names@, name@) {
                    lemma_index_of_pushed(before.names@, self.names@.last(), n);
                    assert(self.names@ =~= before.names@.push(self.names@.last()));
                }
            }
            if !present(before.names@, name@) {
                lemma_index_of_pushed(before.names@, self.names@.last(), name@);
                assert(self.names@ =~= before.names@.push(self.names@.last()));
                assert(self.name_order() =~= before.name_order().push(name@));
                if before.name_order().contains(name@) {
                    let k = choose|k: int|
                        0 <= k < before.name_order().len() && before.name_order()[k] == name@;
                    assert(before.names@[k]@ == name@);
                }
            } else {
                let k = index_of(before.names@, name@);
                assert(before.name_order()[k] == name@);
                assert(self.name_order() =~= before.name_order());
            }
            assert(self@.values =~= target.values);
            assert(self@.generations =~= target.generations);
        }
    }

    /// Counts one commit against `name`: its generation goes up by one, from
    /// 0 where the name was never seen. No binding changes.
    pub fn advance_generation(&mut self, name: &String)
        requires
            old(self).wf(),
            old(self)@.generation_of(name@) < usize::MAX,
        ensures
            final(self).wf(),
            final(self)@ == old(self)@.advance(name@),
            final(self).name_order() == if old(self).name_order().contains(name@) {
                old(self).name_order()
            } else {
                old(self).name_order().push(name@)
            },
    {
        let ghost before = *self;
        match self.find(name) {
            Some(i) => {
                let g = self.generations[i];
                self.generations.set(i, g + 1);
            },
            None => {
                self.names.push(name.clone());
                self.values.push(None);
                self.generations.push(1);
            },
        }
        proof {
            let target = before@.advance(name@);
            assert forall|n: Seq<char>|
                #![trigger self.value_in(n)]
                #![trigger self.generation_in(n)]
                self.value_in(n) == before.value_in(n) && self.generation_in(n) == (if n == name@ {
                    before.generation_in(n) + 1
                } else {
                    before.generation_in(n)
                }) by {
                if !present(before.names@, name@) {
                    lemma_index_of_pushed(before.names@, self.names@.last(), n);
                    assert(self.names@ =~= before.names@.push(self.names@.last()));
                }
            }
            if !present(before.names@, name@) {
                lemma_index_of_pushed(before.names@, self.names@.last(), name@);
                assert(self.names@ =~= before.names@.push(self.names@.last()));
                assert(self.name_order() =~= before.name_order().push(name@));
                if before.name_order().contains(name@) {
                    let k = choose|k: int|
                        0 <= k < before.name_order().len() && before.name_order()[k] == name@;
                    assert(before.names@[k]@ == name@);
                }
            } else {
                let k = index_of(before.names@, name@);
                assert(before.name_order()[k] == name@);
                assert(self.name_order() =~= before.name_order());
            }
            assert(self@.values =~= target.values);
            assert(self@.generations =~= target.generations);
        }
    }
}

} // verus!
