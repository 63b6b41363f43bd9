//! The aggregate toggle table: per permitted (archetype, kind) pair, whether
//! that group of components is currently in the parked regime. One UI button
//! reflects one entry; newly spawned entities adopt the entry's state.

use vstd::prelude::*;

use crate::kinds::{ArchetypeKind, ComponentKind};
use crate::matrix::spec_permits;

verus! {

/// The archetype-wide parked/active regime, one boolean per permitted
/// (archetype, kind) pair. Freshly constructed, everything is active.
pub struct AggregateTable {
    parked: Vec<(ArchetypeKind, ComponentKind)>,
}

impl View for AggregateTable {
    type V = Map<(ArchetypeKind, ComponentKind), bool>;

    closed spec fn view(&self) -> Map<(ArchetypeKind, ComponentKind), bool> {
        Map::new(
            |pair: (ArchetypeKind, ComponentKind)| spec_permits(pair.0, pair.1),
            |pair: (ArchetypeKind, ComponentKind)| self.parked@.contains(pair),
        )
    }
}

impl AggregateTable {
    /// Internal invariant: the parked list holds no pair twice.
    pub closed spec fn wf(&self) -> bool {
        self.parked@.no_duplicates()
    }

    /// The table's domain is exactly the permitted pairs, in every state.
    pub proof fn lemma_dom(&self)
        ensures
            forall|pair: (ArchetypeKind, ComponentKind)|
                #[trigger] self@.contains_key(pair) == spec_permits(pair.0, pair.1),
    {
    }

    /// A fresh table: every permitted pair is in the active regime.
    pub fn new() -> (t: Self)
        ensures
            t.wf(),
            forall|pair: (ArchetypeKind, ComponentKind)|
                spec_permits(pair.0, pair.1) ==> !(#[trigger] t@[pair]),
    {
        let t = AggregateTable { parked: Vec::new() };
        proof {
            assert forall|pair: (ArchetypeKind, ComponentKind)|
                spec_permits(pair.0, pair.1) implies !(#[trigger] t@[pair]) by {
                assert(!t.parked@.contains(pair));
            }
        }
        t
    }

    /// Index of a pair in the parked list, if present.
    fn find_pair(parked: &Vec<(ArchetypeKind, ComponentKind)>, archetype: ArchetypeKind,
        kind: ComponentKind) -> (r: Option<usize>)
        ensures
            match r {
                Some(j) => j < parked@.len() && parked@[j as int] == (archetype, kind),
                None => !parked@.contains((archetype, kind)),
            },
    {
        let n = parked.len();
        let mut j: usize = 0;
        while j < n
            invariant
                j <= n,
                n == parked@.len(),
                forall|j2: int| 0 <= j2 < j ==> #[trigger] parked@[j2] != (archetype, kind),
            decreases n - j,
        {
            let pair = parked[j];
            if pair.0 == archetype && pair.1 == kind {
                proof {
                    assert(parked@[j as int] == (archetype, kind));
                }
                return Some(j);
            }
            j += 1;
        }
        proof {
            if parked@.contains((archetype, kind)) {
                let j2 = choose|j2: int|
                    0 <= j2 < parked@.len() && parked@[j2] == (archetype, kind);
                assert(false);
            }
        }
        None
    }

    /// Whether the pair's group is currently parked.
    pub fn get(&self, archetype: ArchetypeKind, kind: ComponentKind) -> (r: bool)
        requires
            spec_permits(archetype, kind),
        ensures
            r == self@[(archetype, kind)],
    {
        Self::find_pair(&self.parked, archetype, kind).is_some()
    }

    /// Flips the pair's regime.
    pub fn flip(&mut self, archetype: ArchetypeKind, kind: ComponentKind)
        requires
            old(self).wf(),
            spec_permits(archetype, kind),
        ensures
            final(self).wf(),
            final(self)@ == old(self)@.insert(
                (archetype, kind),
                !old(self)@[(archetype, kind)],
            ),
    {
        let ghost p0 = self.parked@;
        let ghost key = (archetype, kind);
        match Self::find_pair(&self.parked, archetype, kind) {
            Some(j) => {
                self.parked.remove(j);
                proof {
                    let p1 = self.parked@;
                    assert forall|m1: int, m2: int|
                        0 <= m1 < m2 < p1.len() implies p1[m1] != p1[m2] by {
                        let n1: int = if m1 < j as int {
                            m1
                        } else {
                            m1 + 1
                        };
                        let n2: int = if m2 < j as int {
                            m2
                        } else {
                            m2 + 1
                        };
                        assert(p1[m1] == p0[n1] && p1[m2] == p0[n2]);
                    }
                    assert forall|pair: (ArchetypeKind, ComponentKind)|
                        #[trigger] p1.contains(pair) == (p0.contains(pair) && pair != key) by {
                        if p1.contains(pair) {
                            let m = choose|m: int| 0 <= m < p1.len() && p1[m] == pair;
                            let n: int = if m < j as int {
                                m
                            } else {
                                m + 1
                            };
                            assert(p0[n] == pair);
                            if pair == key {
                                assert(p0[n] == p0[j as int]);
                                assert(false);
                            }
                        } else {
                            if p0.contains(pair) && pair != key {
                                let n = choose|n: int| 0 <= n < p0.len() && p0[n] == pair;
                                let m: int = if n < j as int {
                                    n
                                } else {
                                    n - 1
                                };
                                assert(p1[m] == pair);
                                assert(false);
                            }
                        }
                    }
                    assert(p0.contains(key));
                    assert(self@ =~= old(self)@.insert(key, !old(self)@[key]));
                }
            },
            None => {
                self.parked.push((archetype, kind));
                proof {
                    let p1 = self.parked@;
                    assert forall|pair: (ArchetypeKind, ComponentKind)|
                        #[trigger] p1.contains(pair) == (p0.contains(pair) || pair == key) by {
                        if p1.contains(pair) {
                            let m = choose|m: int| 0 <= m < p1.len() && p1[m] == pair;
                            if m < p1.len() - 1 {
                                assert(p0[m] == pair);
                            }
                        } else {
                            assert(p1[p1.len() - 1] == key);
                            if p0.contains(pair) {
                                let n = choose|n: int| 0 <= n < p0.len() && p0[n] == pair;
                                assert(p1[n] == pair);
                                assert(false);
                            }
                        }
                    }
                    assert forall|m1: int, m2: int|
                        0 <= m1 < m2 < p1.len() implies p1[m1] != p1[m2] by {
                        if m2 < p1.len() - 1 {
                            assert(p1[m1] == p0[m1] && p1[m2] == p0[m2]);
                        } else {
                            assert(p1[m1] == p0[m1]);
                            if p0[m1] == key {
                                assert(p0.contains(key));
                            }
                        }
                    }
                    assert(!p0.contains(key));
                    assert(self@ =~= old(self)@.insert(key, !old(self)@[key]));
                }
            },
        }
    }
}

} // verus!
