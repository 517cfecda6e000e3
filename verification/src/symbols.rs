use crate::ir::Value;
use vstd::prelude::*;

verus! {

struct Binding {
    name: String,
    value: Value,
}

/// The names bound so far, each with the value it stands for.
///
/// One table serves a whole compilation: a name bound while one function is
/// lowered is still bound while the next one is.
pub struct SymbolTable {
    entries: Vec<Binding>,
}

impl SymbolTable {
    /// No name occurs twice.
    pub closed spec fn wf(self) -> bool {
        forall|i: int, j: int|
            0 <= i < j < self.entries@.len() ==> (#[trigger] self.entries@[i]).name@ != (
            #[trigger] self.entries@[j]).name@
    }

    spec fn index_of(self, name: Seq<char>) -> int {
        choose|i: int| 0 <= i < self.entries@.len() && (#[trigger] self.entries@[i]).name@ == name
    }

    /// The table as a map from names to values.
    pub closed spec fn view(self) -> Map<Seq<char>, Value> {
        Map::new(
            |name: Seq<char>|
                exists|i: int|
                    0 <= i < self.entries@.len() && (#[trigger] self.entries@[i]).name@ == name,
            |name: Seq<char>| self.entries@[self.index_of(name)].value,
        )
    }

    /// A table that binds no name.
    pub fn new() -> (t: SymbolTable)
        ensures
            t.wf(),
            t@ == Map::<Seq<char>, Value>::empty(),
    {
        let t = SymbolTable { entries: Vec::new() };
        assert(t@ =~= Map::<Seq<char>, Value>::empty());
        t
    }

    fn position(&self, name: &String) -> (r: Option<usize>)
        ensures
            match r {
                Some(i) => i < self.entries@.len() && self.entries@[i as int].name@ == name@,
                None => forall|j: int|
                    0 <= j < self.entries@.len() ==> (#[trigger] self.entries@[j]).name@ != name@,
            },
    {
        let mut i: usize = 0;
        while i < self.entries.len()
            invariant
                i <= self.entries@.len(),
                forall|j: int| 0 <= j < i ==> (#[trigger] self.entries@[j]).name@ != name@,
            decreases self.entries@.len() - i,
        {
            if self.entries[i].name == *name {
                return Some(i);
            }
            i += 1;
        }
        None
    }

    /// The value that `name` is bound to, if it is bound.
    pub fn get(&self, name: &String) -> (r: Option<Value>)
        requires
            self.wf(),
        ensures
            r == if self@.contains_key(name@) {
                Some(self@[name@])
            } else {
                None
            },
    {
        match self.position(name) {
            Some(i) => {
                assert(self.entries@[i as int].name@ == name@);
                assert(self@.contains_key(name@));
                assert(self.index_of(name@) == i);
                Some(self.entries[i].value)
            },
            None => None,
        }
    }

    /// Binds `name` to `value`; an earlier binding of `name` is lost.
    pub fn insert(&mut self, name: String, value: Value)
        requires
            old(self).wf(),
        ensures
            final(self).wf(),
            final(self)@ == old(self)@.insert(name@, value),
    {
        let ghost before = *self;
        let ghost at: int;
        match self.position(&name) {
            Some(i) => {
                proof {
                    at = i as int;
                }
                self.entries.set(i, Binding { name, value });
            },
            None => {
                proof {
                    at = self.entries@.len() as int;
                }
                self.entries.push(Binding { name, value });
            },
        }
        proof {
            let after = *self;
            assert(after.wf());
            assert forall|k: Seq<char>| after@.contains_key(k) <==> before@.insert(
                name@,
                value,
            ).contains_key(k) by {
                if before@.contains_key(k) {
                    let i = before.index_of(k);
                    assert(after.entries@[i].name@ == k);
                }
                if k == name@ {
                    assert(after.entries@[at].name@ == k);
                }
                if after@.contains_key(k) && k != name@ {
                    let i = after.index_of(k);
                    assert(before.entries@[i].name@ == k);
                }
            }
            assert forall|k: Seq<char>| after@.contains_key(k) implies after@[k] == before@.insert(
                name@,
                value,
            )[k] by {
                let i = after.index_of(k);
                if k != name@ {
                    assert(before.entries@[i].name@ == k);
                    assert(before.index_of(k) == i);
                }
            }
            assert(after@ =~= before@.insert(name@, value));
        }
    }
}

} // verus!
