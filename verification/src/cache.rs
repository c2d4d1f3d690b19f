use vstd::prelude::*;

use crate::backend::{Cursor, SeekableRead};
use crate::kvstore;
use crate::strutil;

verus! {

/// The default budget for the local cache, in bytes (a gibibyte).
pub const DEFAULT_SIZE: u64 = 1073741824;

/// The bytes held by a sequence of cache entries.
pub open spec fn total_size(es: Seq<(Seq<char>, Seq<u8>)>) -> int
    decreases es.len(),
{
    if es.len() == 0 {
        0int
    } else {
        es[0].1.len() + total_size(es.drop_first())
    }
}

/// The first position holding `k`, or `-1`.
pub open spec fn idx_of(es: Seq<(Seq<char>, Seq<u8>)>, k: Seq<char>) -> int
    decreases es.len(),
{
    if es.len() == 0 {
        -1int
    } else if es[0].0 == k {
        0int
    } else {
        let r = idx_of(es.drop_first(), k);
        if r < 0 {
            -1int
        } else {
            r + 1
        }
    }
}

/// Whether some entry holds `k`.
pub open spec fn has_entry(es: Seq<(Seq<char>, Seq<u8>)>, k: Seq<char>) -> bool {
    idx_of(es, k) >= 0
}

/// The entries left once eviction, oldest first, brings the total under
/// the budget.
pub open spec fn pruned(es: Seq<(Seq<char>, Seq<u8>)>, budget: u64) -> Seq<(Seq<char>, Seq<u8>)>
    decreases es.len(),
{
    if total_size(es) <= budget {
        es
    } else if es.len() == 0 {
        es
    } else {
        pruned(es.drop_first(), budget)
    }
}

pub proof fn lemma_idx_of(es: Seq<(Seq<char>, Seq<u8>)>, k: Seq<char>)
    ensures
        idx_of(es, k) >= 0 ==> idx_of(es, k) < es.len() && es[idx_of(es, k)].0 == k,
        idx_of(es, k) < 0 ==> forall|i: int| 0 <= i < es.len() ==> es[i].0 != k,
        idx_of(es, k) >= 0 ==> forall|i: int| 0 <= i < idx_of(es, k) ==> es[i].0 != k,
    decreases es.len(),
{
    if es.len() > 0 && es[0].0 != k {
        lemma_idx_of(es.drop_first(), k);
        assert(forall|i: int|
            1 <= i < es.len() ==> #[trigger] es[i] == es.drop_first()[i - 1]);
    }
}

pub proof fn lemma_idx_of_first(es: Seq<(Seq<char>, Seq<u8>)>, k: Seq<char>, i: int)
    requires
        0 <= i < es.len(),
        es[i].0 == k,
        forall|j: int| 0 <= j < i ==> es[j].0 != k,
    ensures
        idx_of(es, k) == i,
    decreases es.len(),
{
    if i > 0 {
        assert(forall|j: int|
            1 <= j < es.len() ==> #[trigger] es[j] == es.drop_first()[j - 1]);
        lemma_idx_of_first(es.drop_first(), k, i - 1);
    }
}

pub proof fn lemma_total_push(es: Seq<(Seq<char>, Seq<u8>)>, e: (Seq<char>, Seq<u8>))
    ensures
        total_size(es.push(e)) == total_size(es) + e.1.len(),
    decreases es.len(),
{
    if es.len() == 0 {
        assert(es.push(e).drop_first() =~= Seq::<(Seq<char>, Seq<u8>)>::empty());
        assert(es.push(e)[0] == e);
        assert(total_size(Seq::<(Seq<char>, Seq<u8>)>::empty()) == 0);
        assert(es.push(e).len() == 1);
        assert(total_size(es.push(e)) == e.1.len() + total_size(es.push(e).drop_first()));
    } else {
        assert(es.push(e).drop_first() =~= es.drop_first().push(e));
        lemma_total_push(es.drop_first(), e);
        assert(es.push(e)[0] == es[0]);
    }
}

pub proof fn lemma_total_remove(es: Seq<(Seq<char>, Seq<u8>)>, i: int)
    requires
        0 <= i < es.len(),
    ensures
        total_size(es.remove(i)) == total_size(es) - es[i].1.len(),
    decreases es.len(),
{
    if i == 0 {
        assert(es.remove(0) =~= es.drop_first());
    } else {
        assert(es.remove(i).drop_first() =~= es.drop_first().remove(i - 1));
        assert(es.remove(i)[0] == es[0]);
        lemma_total_remove(es.drop_first(), i - 1);
    }
}

pub proof fn lemma_total_nonneg(es: Seq<(Seq<char>, Seq<u8>)>)
    ensures
        total_size(es) >= 0,
    decreases es.len(),
{
    if es.len() > 0 {
        lemma_total_nonneg(es.drop_first());
    }
}

/// A size-bounded store of recently read or written objects, keyed by
/// flat object name. Entries stand in least-recently-used order: the
/// front of the sequence is evicted first.
pub struct Cache {
    entries: Vec<(String, Vec<u8>)>,
    budget: u64,
    used: u128,
}

impl Cache {
    pub closed spec fn entries_view(&self) -> Seq<(Seq<char>, Seq<u8>)> {
        self.entries@.map_values(|p: (String, Vec<u8>)| (p.0@, p.1@))
    }

    pub closed spec fn budget_view(&self) -> u64 {
        self.budget
    }

    pub closed spec fn wf(&self) -> bool {
        &&& kvstore::distinct_keys(self.entries_view())
        &&& self.used == total_size(self.entries_view())
        &&& forall|i: int|
            0 <= i < self.entries_view().len() ==> #[trigger] self.entries_view()[i].1.len()
                <= u64::MAX
    }

    /// Whether the held bytes are within the configured budget.
    pub open spec fn within_budget(&self) -> bool {
        total_size(self.entries_view()) <= self.budget_view()
    }

    /// A well-formed cache holds each name at most once.
    pub proof fn lemma_wf_distinct(&self)
        requires
            self.wf(),
        ensures
            kvstore::distinct_keys(self.entries_view()),
    {
    }

    /// Set up a cache with the given byte budget.
    pub fn setup(budget: u64) -> (r: Cache)
        ensures
            r.wf(),
            r.within_budget(),
            r.budget_view() == budget,
            r.entries_view() == Seq::<(Seq<char>, Seq<u8>)>::empty(),
    {
        Cache { entries: Vec::new(), budget, used: 0 }
    }

    fn find(&self, name: &str) -> (r: Option<usize>)
        requires
            self.wf(),
        ensures
            match r {
                Some(i) => idx_of(self.entries_view(), name@) == i as int,
                None => !has_entry(self.entries_view(), name@),
            },
    {
        let n = self.entries.len();
        let mut i: usize = 0;
        while i < n
            invariant
                n == self.entries@.len(),
                i <= n,
                forall|j: int| 0 <= j < i ==> self.entries_view()[j].0 != name@,
            decreases n - i,
        {
            if strutil::str_eq(self.entries[i].0.as_str(), name) {
                proof {
                    lemma_idx_of_first(self.entries_view(), name@, i as int);
                }
                return Some(i);
            }
            i += 1;
        }
        proof {
            lemma_idx_of(self.entries_view(), name@);
        }
        None
    }

    /// Hand back the cached entry if present, else nothing; a missing
    /// entry never fails. A hit marks the entry most recently used.
    pub fn try_read(&mut self, name: &str) -> (r: Option<Cursor>)
        requires
            old(self).wf(),
        ensures
            final(self).wf(),
            final(self).budget_view() == old(self).budget_view(),
            ({
                let es = old(self).entries_view();
                match r {
                    Some(c) => has_entry(es, name@) && c.data() == es[idx_of(es, name@)].1
                        && c.pos() == 0 && final(self).entries_view() == es.remove(
                        idx_of(es, name@),
                    ).push(es[idx_of(es, name@)]),
                    None => !has_entry(es, name@) && final(self).entries_view() == es,
                }
            }),
            total_size(final(self).entries_view()) == total_size(old(self).entries_view()),
    {
        let ghost es = self.entries_view();
        match self.find(name) {
            Some(i) => {
                proof {
                    lemma_idx_of(es, name@);
                }
                let entry = self.entries.remove(i);
                let ghost removed = self.entries_view();
                proof {
                    assert(removed =~= es.remove(i as int));
                    lemma_total_remove(es, i as int);
                }
                let bytes = kvstore::clone_bytes(&entry.1);
                self.entries.push(entry);
                proof {
                    assert(self.entries_view() =~= removed.push(es[i as int]));
                    lemma_total_push(removed, es[i as int]);
                    assert(kvstore::distinct_keys(self.entries_view())) by {
                        assert(forall|a: int|
                            0 <= a < removed.len() ==> #[trigger] self.entries_view()[a]
                                == removed[a]);
                        assert forall|a: int, b: int|
                            0 <= a < b < self.entries_view().len()
                                implies self.entries_view()[a].0 != self.entries_view()[b].0 by {
                            if b == self.entries_view().len() - 1 {
                                if a < i as int {
                                    assert(removed[a] == es[a]);
                                } else {
                                    assert(removed[a] == es[a + 1]);
                                }
                            } else {
                                if a < i as int {
                                    assert(removed[a] == es[a]);
                                } else {
                                    assert(removed[a] == es[a + 1]);
                                }
                                if b < i as int {
                                    assert(removed[b] == es[b]);
                                } else {
                                    assert(removed[b] == es[b + 1]);
                                }
                            }
                        }
                    }
                }
                Some(Cursor::new(bytes))
            }
            None => None,
        }
    }

    /// Stream bytes into a new entry under `name` and hand back a read
    /// handle over them, positioned at the end as streaming leaves it.
    pub fn insert(&mut self, name: &str, data: Vec<u8>) -> (r: Cursor)
        requires
            old(self).wf(),
            old(self).within_budget(),
        ensures
            final(self).wf(),
            final(self).budget_view() == old(self).budget_view(),
            final(self).entries_view() == remove_key(old(self).entries_view(), name@).push(
                (name@, data@),
            ),
            r.data() == data@,
            r.pos() == r.data().len(),
    {
        let bytes = kvstore::clone_bytes(&data);
        self.insert_file(name, data);
        Cursor::new_at_end(bytes)
    }

    /// Move an already-materialized object into the cache under `name`.
    pub fn insert_file(&mut self, name: &str, data: Vec<u8>)
        requires
            old(self).wf(),
            old(self).within_budget(),
        ensures
            final(self).wf(),
            final(self).budget_view() == old(self).budget_view(),
            final(self).entries_view() == remove_key(old(self).entries_view(), name@).push(
                (name@, data@),
            ),
    {
        self.evict(name);
        let ghost kept = self.entries_view();
        let sz: u64 = data.len() as u64;
        proof {
            lemma_total_nonneg(kept);
        }
        self.used = self.used + (sz as u128);
        self.entries.push((name.to_owned(), data));
        proof {
            assert(self.entries_view() =~= kept.push((name@, data@)));
            lemma_total_push(kept, (name@, data@));
            lemma_idx_of(kept, name@);
            assert(kvstore::distinct_keys(self.entries_view())) by {
                assert(forall|a: int|
                    0 <= a < kept.len() ==> #[trigger] self.entries_view()[a] == kept[a]);
            }
        }
    }

    /// Drop the entry under `name` if present; absence is not an error.
    pub fn evict(&mut self, name: &str)
        requires
            old(self).wf(),
        ensures
            final(self).wf(),
            final(self).budget_view() == old(self).budget_view(),
            final(self).entries_view() == remove_key(old(self).entries_view(), name@),
            !has_entry(final(self).entries_view(), name@),
            total_size(final(self).entries_view()) <= total_size(old(self).entries_view()),
    {
        let ghost es = self.entries_view();
        proof {
            lemma_idx_of(es, name@);
        }
        match self.find(name) {
            Some(i) => {
                let entry = self.entries.remove(i);
                let sz: u64 = entry.1.len() as u64;
                proof {
                    assert(self.entries_view() =~= es.remove(i as int));
                    lemma_total_remove(es, i as int);
                    lemma_total_nonneg(self.entries_view());
                }
                self.used = self.used - (sz as u128);
                proof {
                    assert(kvstore::distinct_keys(self.entries_view())) by {
                        assert forall|a: int, b: int|
                            0 <= a < b < self.entries_view().len()
                                implies self.entries_view()[a].0 != self.entries_view()[b].0 by {
                            if a < i as int {
                                assert(self.entries_view()[a] == es[a]);
                            } else {
                                assert(self.entries_view()[a] == es[a + 1]);
                            }
                            if b < i as int {
                                assert(self.entries_view()[b] == es[b]);
                            } else {
                                assert(self.entries_view()[b] == es[b + 1]);
                            }
                        }
                    }
                    assert forall|j: int|
                        0 <= j < self.entries_view().len()
                            implies self.entries_view()[j].0 != name@ by {
                        if j < i as int {
                            assert(self.entries_view()[j] == es[j]);
                        } else {
                            assert(self.entries_view()[j] == es[j + 1]);
                        }
                    }
                    lemma_idx_of(self.entries_view(), name@);
                }
            }
            None => {
                proof {
                    lemma_idx_of(es, name@);
                }
            }
        }
    }

    /// After an insertion, evict least-recently-used entries until the
    /// held bytes are under the budget again.
    pub fn prune(&mut self)
        requires
            old(self).wf(),
        ensures
            final(self).wf(),
            final(self).budget_view() == old(self).budget_view(),
            final(self).entries_view() == pruned(
                old(self).entries_view(),
                old(self).budget_view(),
            ),
            final(self).within_budget(),
    {
        while self.used > self.budget as u128
            invariant
                self.wf(),
                self.budget == old(self).budget,
                pruned(self.entries_view(), self.budget) == pruned(
                    old(self).entries_view(),
                    old(self).budget_view(),
                ),
            decreases self.entries_view().len(),
        {
            let ghost es = self.entries_view();
            let entry = self.entries.remove(0);
            let sz: u64 = entry.1.len() as u64;
            proof {
                assert(self.entries_view() =~= es.drop_first());
                lemma_total_nonneg(self.entries_view());
            }
            self.used = self.used - (sz as u128);
            proof {
                assert(kvstore::distinct_keys(self.entries_view())) by {
                    assert(forall|a: int|
                        0 <= a < self.entries_view().len() ==> #[trigger] self.entries_view()[a]
                            == es[a + 1]);
                }
            }
        }
        proof {
            assert(total_size(self.entries_view()) <= self.budget);
        }
    }
}

/// The entries with the one under `k`, if any, dropped.
pub open spec fn remove_key(es: Seq<(Seq<char>, Seq<u8>)>, k: Seq<char>) -> Seq<
    (Seq<char>, Seq<u8>),
> {
    if idx_of(es, k) >= 0 {
        es.remove(idx_of(es, k))
    } else {
        es
    }
}

} // verus!
