//! Recency bookkeeping for the resident pages of a cache.
//!
//! Tracks the recency of every resident page and which of them are evictable
//! (resident and clean: a dirty page must be flushed, never dropped). Page bytes
//! live on disk, so only page numbers are ordered here: a monotonic clock and two
//! indexes.

use std::collections::{BTreeMap, HashMap};

use vstd::prelude::*;

use crate::backend::maps;

verus! {

broadcast use {
    vstd::std_specs::hash::group_hash_axioms,
    vstd::std_specs::btree::group_btree_axioms,
    vstd::laws_cmp::group_laws_cmp,
};

/// Recency of resident pages.
pub struct Lru {
    /// Monotonic access clock; higher means more recently used.
    seq: u64,
    /// Recency stamp of every resident page.
    by_page: HashMap<u64, u64>,
    /// Evictable pages by recency stamp: the smallest key is the least recently
    /// used one.
    evictable: BTreeMap<u64, u64>,
}

impl Default for Lru {
    fn default() -> (r: Self)
        ensures
            r.wf(),
            r.clock() == 0,
            r.stamps() == Map::<u64, u64>::empty(),
            r.clean() == Set::<u64>::empty(),
    {
        Lru::new()
    }
}

impl Lru {
    /// The recency stamp of each resident page.
    pub closed spec fn stamps(&self) -> Map<u64, u64> {
        self.by_page@
    }

    /// The evictable pages.
    pub open spec fn clean(&self) -> Set<u64> {
        Set::new(|p: u64| self.is_clean(p))
    }

    /// `page` is resident and may be evicted.
    pub closed spec fn is_clean(&self, page: u64) -> bool {
        self.by_page@.contains_key(page) && self.evictable@.contains_key(self.by_page@[page])
    }

    /// The stamp of the latest access.
    pub closed spec fn clock(&self) -> u64 {
        self.seq
    }

    /// No two pages share a stamp, no stamp is ahead of the clock, and the two
    /// indexes agree.
    pub closed spec fn wf(&self) -> bool {
        &&& forall|p: u64| #[trigger]
            self.by_page@.contains_key(p) ==> 0 < self.by_page@[p] <= self.seq
        &&& forall|p: u64, q: u64|
            #![trigger self.by_page@[p], self.by_page@[q]]
            self.by_page@.contains_key(p) && self.by_page@.contains_key(q) && p != q
                ==> self.by_page@[p] != self.by_page@[q]
        &&& forall|s: u64| #[trigger]
            self.evictable@.contains_key(s) ==> self.by_page@.contains_key(self.evictable@[s])
                && self.by_page@[self.evictable@[s]] == s
    }

    /// An evictable page is resident.
    pub proof fn lemma_clean_is_tracked(&self, page: u64)
        ensures
            self.clean().contains(page) ==> self.stamps().contains_key(page),
    {
    }

    /// No stamp is ahead of the clock.
    pub proof fn lemma_stamp_bound(&self, page: u64)
        requires
            self.wf(),
        ensures
            self.stamps().contains_key(page) ==> 0 < self.stamps()[page] <= self.clock(),
    {
    }

    /// No page at all.
    pub fn new() -> (r: Self)
        ensures
            r.wf(),
            r.clock() == 0,
            r.stamps() == Map::<u64, u64>::empty(),
            r.clean() == Set::<u64>::empty(),
    {
        let r = Lru { seq: 0, by_page: HashMap::new(), evictable: BTreeMap::new() };
        assert(r.clean() =~= Set::<u64>::empty());
        r
    }

    /// The stamp of the latest access.
    pub fn ticks(&self) -> (r: u64)
        ensures
            r == self.clock(),
    {
        self.seq
    }

    /// Whether `page` is resident.
    pub fn contains(&self, page: u64) -> (r: bool)
        ensures
            r == self.stamps().contains_key(page),
    {
        self.by_page.contains_key(&page)
    }

    /// Record an access to `page`, which becomes the most recent one and is
    /// evictable from now on exactly when `clean`.
    pub fn touch(&mut self, page: u64, clean: bool)
        requires
            old(self).wf(),
            old(self).clock() < u64::MAX,
        ensures
            final(self).wf(),
            final(self).clock() == old(self).clock() + 1,
            final(self).stamps() == old(self).stamps().insert(page, final(self).clock()),
            final(self).clean() == (if clean {
                old(self).clean().insert(page)
            } else {
                old(self).clean().remove(page)
            }),
    {
        match self.by_page.get(&page) {
            Some(stamp) => {
                let s: u64 = *stamp;
                self.evictable.remove(&s);
            },
            None => {},
        }
        self.seq = self.seq + 1;
        let s: u64 = self.seq;
        self.by_page.insert(page, s);
        if clean {
            self.evictable.insert(s, page);
        }
        proof {
            assert forall|p: u64| p != page implies #[trigger] self.is_clean(p) == old(self).is_clean(p) by {
                if old(self).by_page@.contains_key(p) {
                    assert(old(self).by_page@[p] != s);
                    if old(self).by_page@.contains_key(page) {
                        assert(old(self).by_page@[p] != old(self).by_page@[page]);
                    }
                }
            }
            assert(self.is_clean(page) == clean) by {
                if old(self).evictable@.contains_key(s) {
                    assert(old(self).by_page@[old(self).evictable@[s]] == s);
                }
            }
            assert(self.clean() =~= (if clean {
                old(self).clean().insert(page)
            } else {
                old(self).clean().remove(page)
            }));
        }
    }

    /// Remove and return the least recently used evictable page other than
    /// `protect`.
    pub fn pop_lru(&mut self, protect: Option<u64>) -> (r: Option<u64>)
        requires
            old(self).wf(),
        ensures
            final(self).wf(),
            final(self).clock() == old(self).clock(),
            match r {
                Some(page) => {
                    &&& old(self).clean().contains(page)
                    &&& protect != Some(page)
                    &&& forall|q: u64| #[trigger]
                        old(self).clean().contains(q) && protect != Some(q) ==> old(self).stamps()[page]
                            <= old(self).stamps()[q]
                    &&& final(self).stamps() == old(self).stamps().remove(page)
                    &&& final(self).clean() == old(self).clean().remove(page)
                },
                None => {
                    &&& forall|q: u64| #[trigger] old(self).clean().contains(q) ==> protect == Some(q)
                    &&& final(self).stamps() == old(self).stamps()
                    &&& final(self).clean() == old(self).clean()
                },
            },
    {
        let keys = maps::sorted_keys(&self.evictable);
        let mut i: usize = 0;
        while i < keys.len()
            invariant
                i <= keys@.len(),
                *self == *old(self),
                self.wf(),
                maps::increasing(keys@),
                forall|k: u64| #[trigger] keys@.contains(k) <==> self.evictable@.contains_key(k),
                forall|j: int| 0 <= j < i ==> protect == Some(self.evictable@[#[trigger] keys@[j]]),
            decreases keys@.len() - i,
        {
            let s: u64 = keys[i];
            assert(keys@.contains(s));
            let page: u64 = match self.evictable.get(&s) {
                Some(p) => *p,
                None => s,
            };
            let skip = match protect {
                Some(q) => q == page,
                None => false,
            };
            if !skip {
                proof {
                    assert(self.is_clean(page));
                    assert forall|q: u64| #[trigger] old(self).clean().contains(q) && protect != Some(q)
                        implies old(self).stamps()[page] <= old(self).stamps()[q] by {
                        let t = self.by_page@[q];
                        assert(keys@.contains(t));
                        let j = choose|j: int| 0 <= j < keys@.len() && keys@[j] == t;
                        assert(self.by_page@[self.evictable@[t]] == t);
                        assert(self.evictable@[t] == q);
                    }
                }
                self.evictable.remove(&s);
                self.by_page.remove(&page);
                proof {
                    assert forall|p: u64| p != page implies #[trigger] self.is_clean(p) == old(self).is_clean(p) by {
                        if old(self).by_page@.contains_key(p) {
                            assert(old(self).by_page@[p] != old(self).by_page@[page]);
                        }
                    }
                    assert(self.clean() =~= old(self).clean().remove(page));
                }
                return Some(page);
            }
            i = i + 1;
        }
        proof {
            assert forall|q: u64| #[trigger] old(self).clean().contains(q) implies protect == Some(q) by {
                let t = self.by_page@[q];
                assert(keys@.contains(t));
                let j = choose|j: int| 0 <= j < keys@.len() && keys@[j] == t;
                assert(self.by_page@[self.evictable@[t]] == t);
                assert(self.evictable@[t] == q);
            }
        }
        None
    }

    /// Make `page` not evictable until it is touched again.
    pub fn pin(&mut self, page: u64)
        requires
            old(self).wf(),
        ensures
            final(self).wf(),
            final(self).clock() == old(self).clock(),
            final(self).stamps() == old(self).stamps(),
            final(self).clean() == old(self).clean().remove(page),
    {
        match self.by_page.get(&page) {
            Some(stamp) => {
                let s: u64 = *stamp;
                self.evictable.remove(&s);
            },
            None => {},
        }
        proof {
            assert forall|p: u64| p != page implies #[trigger] self.is_clean(p) == old(self).is_clean(p) by {
                if old(self).by_page@.contains_key(p) && old(self).by_page@.contains_key(page) {
                    assert(old(self).by_page@[p] != old(self).by_page@[page]);
                }
            }
            assert(self.clean() =~= old(self).clean().remove(page));
        }
    }

    /// Forget every page and start the clock anew.
    pub fn clear(&mut self)
        ensures
            final(self).wf(),
            final(self).clock() == 0,
            final(self).stamps() == Map::<u64, u64>::empty(),
            final(self).clean() == Set::<u64>::empty(),
    {
        self.seq = 0;
        self.by_page.clear();
        self.evictable.clear();
        assert(self.clean() =~= Set::<u64>::empty());
    }
}

} // verus!
