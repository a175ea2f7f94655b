//! Lookup of piece definitions by id.

use crate::domain::piece::{PieceDef, PieceDefModel};
use crate::text::str_eq;
use vstd::prelude::*;

verus! {

/// One definition with its id.
pub struct PieceDefEntry {
    pub id: String,
    pub def: PieceDef,
}

/// Piece definitions keyed by id. Inserting an id that is already present
/// replaces its definition.
pub struct PieceDefMap {
    entries: Vec<PieceDefEntry>,
}

impl PieceDefMap {
    #[verifier::type_invariant]
    spec fn inv(self) -> bool {
        forall|i: int, j: int|
            0 <= i < j < self.entries@.len() ==> (#[trigger] self.entries@[i]).id@ != (
            #[trigger] self.entries@[j]).id@
    }

    /// Position of the entry for `k`, if any.
    pub closed spec fn position(self, k: Seq<char>) -> int {
        choose|i: int| 0 <= i < self.entries@.len() && (#[trigger] self.entries@[i]).id@ == k
    }

    /// Whether an entry for `k` exists.
    pub closed spec fn has(self, k: Seq<char>) -> bool {
        exists|i: int| 0 <= i < self.entries@.len() && (#[trigger] self.entries@[i]).id@ == k
    }
}

impl View for PieceDefMap {
    type V = Map<Seq<char>, PieceDefModel>;

    closed spec fn view(&self) -> Map<Seq<char>, PieceDefModel> {
        Map::new(|k: Seq<char>| self.has(k), |k: Seq<char>| self.entries@[self.position(k)].def@)
    }
}

impl PieceDefMap {
    /// An empty map.
    pub fn new() -> (m: Self)
        ensures
            m@ == Map::<Seq<char>, PieceDefModel>::empty(),
    {
        let m = PieceDefMap { entries: Vec::new() };
        assert(m@ =~= Map::<Seq<char>, PieceDefModel>::empty());
        m
    }

    /// Finds the position of `id`.
    fn find(&self, id: &str) -> (r: Option<usize>)
        ensures
            match r {
                Some(i) => i < self.entries@.len() && self.entries@[i as int].id@ == id@ && self.has(
                    id@,
                ) && self.position(id@) == i,
                None => !self.has(id@),
            },
    {
        proof {
            use_type_invariant(self);
        }
        let mut i: usize = 0;
        while i < self.entries.len()
            invariant
                i <= self.entries@.len(),
                forall|j: int| 0 <= j < i ==> (#[trigger] self.entries@[j]).id@ != id@,
            decreases self.entries@.len() - i,
        {
            if str_eq(self.entries[i].id.as_str(), id) {
                proof {
                    use_type_invariant(self);
                    assert(self.has(id@));
                    let p = self.position(id@);
                    assert(self.entries@[p].id@ == id@);
                }
                return Some(i);
            }
            i = i + 1;
        }
        None
    }

    /// Inserts `def` under `id`, replacing any previous definition.
    pub fn insert(&mut self, id: String, def: PieceDef)
        ensures
            final(self)@ == old(self)@.insert(id@, def@),
    {
        proof {
            use_type_invariant(&*self);
        }
        let ghost k = id@;
        let ghost dv = def@;
        let found = self.find(id.as_str());
        let ghost idx: int = match found {
            Some(i) => i as int,
            None => old(self).entries@.len() as int,
        };
        let mut entries: Vec<PieceDefEntry> = Vec::new();
        std::mem::swap(&mut entries, &mut self.entries);
        match found {
            Some(i) => {
                entries[i] = PieceDefEntry { id, def };
            },
            None => {
                entries.push(PieceDefEntry { id, def });
            },
        }
        proof {
            assert forall|a: int, b: int| 0 <= a < b < entries@.len() implies (#[trigger] entries@[a]).id@
                != (#[trigger] entries@[b]).id@ by {
                if found is None && b == entries@.len() - 1 {
                    assert(old(self).entries@[a].id@ != k);
                }
            }
        }
        self.entries = entries;
        proof {
            assert forall|q: Seq<char>| #[trigger] self.has(q) == (old(self).has(q) || q == k) by {
                if q == k {
                    assert(self.entries@[idx].id@ == q);
                }
                if old(self).has(q) {
                    let j = old(self).position(q);
                    assert(self.entries@[j].id@ == q);
                }
            }
            assert forall|q: Seq<char>| self.has(q) && q != k implies self.position(q) == old(
                self,
            ).position(q) by {
                let a = self.position(q);
                assert(self.entries@[a].id@ == q);
                assert(a != idx);
                assert(old(self).entries@[a].id@ == q);
                assert(old(self).has(q));
                let b = old(self).position(q);
                assert(old(self).entries@[b].id@ == q);
                assert(self.entries@[b].id@ == q);
            }
            assert(self.has(k));
            let pk = self.position(k);
            assert(self.entries@[pk].id@ == k);
            assert(self.entries@[idx].id@ == k);
            assert(self.entries@[pk].def@ == dv);
            assert(self@ =~= old(self)@.insert(k, dv));
        }
    }

    /// Returns the definition stored under `id`.
    pub fn get(&self, id: &str) -> (r: Option<&PieceDef>)
        ensures
            match r {
                Some(d) => self@.contains_key(id@) && d@ == self@[id@],
                None => !self@.contains_key(id@),
            },
    {
        match self.find(id) {
            Some(i) => Some(&self.entries[i].def),
            None => None,
        }
    }

    /// Returns `true` if a definition is stored under `id`.
    pub fn contains_key(&self, id: &str) -> (r: bool)
        ensures
            r == self@.contains_key(id@),
    {
        self.find(id).is_some()
    }
}

} // verus!
