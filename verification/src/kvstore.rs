use vstd::prelude::*;

use crate::strutil;

verus! {

/// The map described by an association list, later entries shadowing
/// earlier ones.
pub open spec fn assoc_map(es: Seq<(Seq<char>, Seq<u8>)>) -> Map<Seq<char>, Seq<u8>>
    decreases es.len(),
{
    if es.len() == 0 {
        Map::empty()
    } else {
        assoc_map(es.drop_last()).insert(es.last().0, es.last().1)
    }
}

/// No two entries share a key.
pub open spec fn distinct_keys(es: Seq<(Seq<char>, Seq<u8>)>) -> bool {
    forall|i: int, j: int| 0 <= i < j < es.len() ==> es[i].0 != es[j].0
}

/// The (name, size) pairs of the entries whose name begins with `prefix`,
/// in entry order.
pub open spec fn prefix_entries(es: Seq<(Seq<char>, Seq<u8>)>, prefix: Seq<char>) -> Seq<
    (Seq<char>, u64),
>
    decreases es.len(),
{
    if es.len() == 0 {
        Seq::empty()
    } else if strutil::has_prefix(es.last().0, prefix) {
        prefix_entries(es.drop_last(), prefix).push((es.last().0, es.last().1.len() as u64))
    } else {
        prefix_entries(es.drop_last(), prefix)
    }
}

/// Every listed pair names a present entry with a matching prefix and the
/// entry's size.
pub proof fn lemma_prefix_entries_sound(es: Seq<(Seq<char>, Seq<u8>)>, prefix: Seq<char>)
    requires
        distinct_keys(es),
        forall|i: int| 0 <= i < es.len() ==> #[trigger] es[i].1.len() <= u64::MAX,
    ensures
        forall|i: int| #![trigger prefix_entries(es, prefix)[i]]
            0 <= i < prefix_entries(es, prefix).len() ==> {
                let p = prefix_entries(es, prefix)[i];
                strutil::has_prefix(p.0, prefix) && assoc_map(es).contains_key(p.0)
                    && p.1 == assoc_map(es)[p.0].len() && assoc_map(es)[p.0].len() <= u64::MAX
            },
    decreases es.len(),
{
    if es.len() > 0 {
        let dl = es.drop_last();
        assert(distinct_keys(dl));
        assert(forall|i: int| 0 <= i < dl.len() ==> #[trigger] dl[i].1.len() <= u64::MAX);
        lemma_prefix_entries_sound(dl, prefix);
        let pe = prefix_entries(es, prefix);
        let pd = prefix_entries(dl, prefix);
        assert forall|i: int| #![trigger pe[i]] 0 <= i < pe.len() implies {
            let p = pe[i];
            strutil::has_prefix(p.0, prefix) && assoc_map(es).contains_key(p.0)
                && p.1 == assoc_map(es)[p.0].len() && assoc_map(es)[p.0].len() <= u64::MAX
        } by {
            if i < pd.len() {
                assert(pe[i] == pd[i]);
                lemma_assoc_contains(dl, pd[i].0);
                let b = choose|b: int| 0 <= b < dl.len() && dl[b].0 == pd[i].0;
                assert(es[b].0 == pd[i].0);
                assert(es[b].0 != es.last().0);
                assert(assoc_map(es)[pd[i].0] == assoc_map(dl)[pd[i].0]);
            } else {
                assert(pe[i] == (es.last().0, es.last().1.len() as u64));
            }
        }
    }
}

/// Every present entry with a matching prefix is listed.
pub proof fn lemma_prefix_entries_complete(
    es: Seq<(Seq<char>, Seq<u8>)>,
    prefix: Seq<char>,
    k: Seq<char>,
)
    requires
        assoc_map(es).contains_key(k),
        strutil::has_prefix(k, prefix),
    ensures
        exists|i: int|
            0 <= i < prefix_entries(es, prefix).len() && #[trigger] prefix_entries(
                es,
                prefix,
            )[i].0 == k,
    decreases es.len(),
{
    if es.len() > 0 {
        let dl = es.drop_last();
        let pe = prefix_entries(es, prefix);
        let pd = prefix_entries(dl, prefix);
        if es.last().0 == k {
            assert(pe[pe.len() - 1].0 == k);
        } else {
            assert(assoc_map(dl).contains_key(k));
            lemma_prefix_entries_complete(dl, prefix, k);
            let i = choose|i: int| 0 <= i < pd.len() && #[trigger] pd[i].0 == k;
            assert(pe[i].0 == k);
        }
    }
}

/// Listed names are distinct.
pub proof fn lemma_prefix_entries_distinct(es: Seq<(Seq<char>, Seq<u8>)>, prefix: Seq<char>)
    requires
        distinct_keys(es),
        forall|i: int| 0 <= i < es.len() ==> #[trigger] es[i].1.len() <= u64::MAX,
    ensures
        forall|i: int, j: int|
            0 <= i < j < prefix_entries(es, prefix).len()
                ==> #[trigger] prefix_entries(es, prefix)[i].0 != #[trigger] prefix_entries(
                es,
                prefix,
            )[j].0,
    decreases es.len(),
{
    if es.len() > 0 {
        let dl = es.drop_last();
        assert(distinct_keys(dl));
        assert(forall|i: int| 0 <= i < dl.len() ==> #[trigger] dl[i].1.len() <= u64::MAX);
        lemma_prefix_entries_distinct(dl, prefix);
        lemma_prefix_entries_sound(dl, prefix);
        let pe = prefix_entries(es, prefix);
        let pd = prefix_entries(dl, prefix);
        assert forall|i: int, j: int| 0 <= i < j < pe.len() implies pe[i].0 != pe[j].0 by {
            if j < pd.len() {
                assert(pe[i] == pd[i] && pe[j] == pd[j]);
            } else if j == pd.len() && pe.len() > pd.len() {
                assert(pe[i] == pd[i]);
                lemma_assoc_contains(dl, pd[i].0);
                let b = choose|b: int| 0 <= b < dl.len() && dl[b].0 == pd[i].0;
                assert(es[b].0 == pd[i].0);
                assert(es[b].0 != es.last().0);
                assert(pe[j].0 == es.last().0);
            }
        }
    }
}

pub proof fn lemma_assoc_contains(es: Seq<(Seq<char>, Seq<u8>)>, k: Seq<char>)
    ensures
        assoc_map(es).contains_key(k) <==> exists|i: int| 0 <= i < es.len() && es[i].0 == k,
    decreases es.len(),
{
    if es.len() > 0 {
        lemma_assoc_contains(es.drop_last(), k);
        if assoc_map(es).contains_key(k) {
            if es.last().0 == k {
                assert(es[es.len() - 1].0 == k);
            } else {
                let i = choose|i: int| 0 <= i < es.drop_last().len() && es.drop_last()[i].0 == k;
                assert(es[i].0 == k);
            }
        }
        if exists|i: int| 0 <= i < es.len() && es[i].0 == k {
            let i = choose|i: int| 0 <= i < es.len() && es[i].0 == k;
            if i < es.len() - 1 {
                assert(es.drop_last()[i].0 == k);
            }
        }
    }
}

pub proof fn lemma_assoc_at(es: Seq<(Seq<char>, Seq<u8>)>, i: int)
    requires
        distinct_keys(es),
        0 <= i < es.len(),
    ensures
        assoc_map(es).contains_key(es[i].0),
        assoc_map(es)[es[i].0] == es[i].1,
    decreases es.len(),
{
    if i == es.len() - 1 {
    } else {
        assert(forall|a: int, b: int|
            0 <= a < b < es.drop_last().len() ==> es.drop_last()[a].0 != es.drop_last()[b].0);
        lemma_assoc_at(es.drop_last(), i);
        assert(es[i].0 != es.last().0);
    }
}

pub proof fn lemma_assoc_remove_at(es: Seq<(Seq<char>, Seq<u8>)>, i: int)
    requires
        distinct_keys(es),
        0 <= i < es.len(),
    ensures
        assoc_map(es.remove(i)) == assoc_map(es).remove(es[i].0),
    decreases es.len(),
{
    let k = es[i].0;
    if i == es.len() - 1 {
        assert(es.remove(i) =~= es.drop_last());
        lemma_assoc_contains(es.drop_last(), k);
        assert(forall|j: int| 0 <= j < es.drop_last().len() ==> es.drop_last()[j].0 != k);
        assert(!assoc_map(es.drop_last()).contains_key(k));
        assert(assoc_map(es.drop_last()).insert(k, es.last().1).remove(k)
            =~= assoc_map(es.drop_last()));
    } else {
        assert(forall|a: int, b: int|
            0 <= a < b < es.drop_last().len() ==> es.drop_last()[a].0 != es.drop_last()[b].0);
        lemma_assoc_remove_at(es.drop_last(), i);
        assert(es.remove(i).drop_last() =~= es.drop_last().remove(i));
        assert(es.remove(i).last() == es.last());
        assert(es.remove(i).len() == es.len() - 1);
        // removing key k commutes with inserting the (different) last key
        assert(k != es.last().0);
        assert(assoc_map(es.drop_last()).remove(k).insert(es.last().0, es.last().1)
            =~= assoc_map(es.drop_last()).insert(es.last().0, es.last().1).remove(k));
    }
}

/// An in-process mapping from names to byte strings.
pub struct KvStore {
    entries: Vec<(String, Vec<u8>)>,
}

impl View for KvStore {
    type V = Map<Seq<char>, Seq<u8>>;

    closed spec fn view(&self) -> Map<Seq<char>, Seq<u8>> {
        assoc_map(self.entries_view())
    }
}

impl KvStore {
    pub closed spec fn entries_view(&self) -> Seq<(Seq<char>, Seq<u8>)> {
        self.entries@.map_values(|p: (String, Vec<u8>)| (p.0@, p.1@))
    }

    pub closed spec fn wf(&self) -> bool {
        &&& distinct_keys(self.entries_view())
        &&& forall|i: int|
            0 <= i < self.entries_view().len() ==> #[trigger] self.entries_view()[i].1.len()
                <= u64::MAX
    }

    pub fn new() -> (r: KvStore)
        ensures
            r.wf(),
            r@ == Map::<Seq<char>, Seq<u8>>::empty(),
    {
        KvStore { entries: Vec::new() }
    }

    fn find(&self, k: &str) -> (r: Option<usize>)
        ensures
            match r {
                Some(i) => i < self.entries_view().len() && self.entries_view()[i as int].0 == k@,
                None => forall|i: int|
                    0 <= i < self.entries_view().len() ==> self.entries_view()[i].0 != k@,
            },
    {
        let n = self.entries.len();
        let mut i: usize = 0;
        while i < n
            invariant
                n == self.entries@.len(),
                i <= n,
                forall|j: int| 0 <= j < i ==> self.entries_view()[j].0 != k@,
            decreases n - i,
        {
            if strutil::str_eq(self.entries[i].0.as_str(), k) {
                return Some(i);
            }
            i += 1;
        }
        None
    }

    /// Look a name up; `None` exactly when the name is absent.
    pub fn get(&self, k: &str) -> (r: Option<&Vec<u8>>)
        requires
            self.wf(),
        ensures
            match r {
                Some(v) => self@.contains_key(k@) && v@ == self@[k@],
                None => !self@.contains_key(k@),
            },
    {
        proof {
            lemma_assoc_contains(self.entries_view(), k@);
        }
        match self.find(k) {
            Some(i) => {
                proof {
                    lemma_assoc_at(self.entries_view(), i as int);
                }
                Some(&self.entries[i].1)
            }
            None => None,
        }
    }

    /// Whether the name is present.
    pub fn contains(&self, k: &str) -> (r: bool)
        requires
            self.wf(),
        ensures
            r == self@.contains_key(k@),
    {
        self.get(k).is_some()
    }

    /// Bind a name to the given bytes, replacing any previous binding.
    pub fn put(&mut self, k: &str, v: Vec<u8>)
        requires
            old(self).wf(),
        ensures
            final(self).wf(),
            final(self)@ == old(self)@.insert(k@, v@),
    {
        self.delete(k);
        let ghost pre = self.entries_view();
        let sz: u64 = v.len() as u64;
        self.entries.push((k.to_owned(), v));
        proof {
            assert(self.entries_view().last().1.len() == sz);
            assert(self.entries_view() =~= pre.push((k@, v@)));
            assert(self.entries_view().drop_last() =~= pre);
            assert(self@ =~= old(self)@.insert(k@, v@)) by {
                assert(self@ == assoc_map(pre).insert(k@, v@));
                assert(assoc_map(pre) == old(self)@.remove(k@));
                assert(old(self)@.remove(k@).insert(k@, v@) =~= old(self)@.insert(k@, v@));
            }
            assert(distinct_keys(self.entries_view())) by {
                assert(forall|i: int| 0 <= i < pre.len() ==> pre[i].0 != k@);
                assert(forall|i: int|
                    0 <= i < pre.len() ==> self.entries_view()[i] == pre[i]);
            }
        }
    }

    /// Remove a name if present; absence is not an error.
    pub fn delete(&mut self, k: &str)
        requires
            old(self).wf(),
        ensures
            final(self).wf(),
            final(self)@ == old(self)@.remove(k@),
            forall|i: int|
                0 <= i < final(self).entries_view().len()
                    ==> final(self).entries_view()[i].0 != k@,
    {
        proof {
            lemma_assoc_contains(self.entries_view(), k@);
        }
        match self.find(k) {
            Some(i) => {
                let ghost pre = self.entries_view();
                self.entries.remove(i);
                proof {
                    assert(self.entries_view() =~= pre.remove(i as int));
                    lemma_assoc_remove_at(pre, i as int);
                    assert(forall|a: int, b: int|
                        0 <= a < b < pre.remove(i as int).len()
                            ==> pre.remove(i as int)[a].0 != pre.remove(i as int)[b].0);
                    assert forall|j: int|
                        0 <= j < self.entries_view().len()
                            implies self.entries_view()[j].0 != k@ by {
                        if j < i as int {
                            assert(pre.remove(i as int)[j] == pre[j]);
                        } else {
                            assert(pre.remove(i as int)[j] == pre[j + 1]);
                        }
                    }
                }
            }
            None => {
                proof {
                    assert(!self@.contains_key(k@));
                    assert(self@ =~= self@.remove(k@));
                }
            }
        }
    }

    /// All (name, size) pairs whose name begins with `prefix`.
    pub fn list_prefix(&self, prefix: &str) -> (r: Vec<(String, u64)>)
        requires
            self.wf(),
        ensures
            r@.map_values(|p: (String, u64)| (p.0@, p.1))
                == prefix_entries(self.entries_view(), prefix@),
    {
        let n = self.entries.len();
        let mut r: Vec<(String, u64)> = Vec::new();
        let mut i: usize = 0;
        proof {
            assert(self.entries_view().take(0) =~= Seq::<(Seq<char>, Seq<u8>)>::empty());
            assert(r@.map_values(|p: (String, u64)| (p.0@, p.1))
                =~= Seq::<(Seq<char>, u64)>::empty());
        }
        while i < n
            invariant
                self.wf(),
                n == self.entries@.len(),
                i <= n,
                r@.map_values(|p: (String, u64)| (p.0@, p.1))
                    == prefix_entries(self.entries_view().take(i as int), prefix@),
            decreases n - i,
        {
            let ghost pre = r@.map_values(|p: (String, u64)| (p.0@, p.1));
            let ghost evt = self.entries_view().take(i as int + 1);
            proof {
                assert(evt.drop_last() =~= self.entries_view().take(i as int));
                assert(evt.last() == self.entries_view()[i as int]);
            }
            let name = &self.entries[i].0;
            if strutil::starts_with(name.as_str(), prefix) {
                let size = self.entries[i].1.len() as u64;
                r.push((name.clone(), size));
                proof {
                    assert(r@.map_values(|p: (String, u64)| (p.0@, p.1))
                        =~= pre.push((self.entries_view()[i as int].0,
                            self.entries_view()[i as int].1.len() as u64)));
                    assert(prefix_entries(evt, prefix@) =~= pre.push((evt.last().0,
                        evt.last().1.len() as u64)));
                }
            } else {
                proof {
                    assert(prefix_entries(evt, prefix@) == prefix_entries(evt.drop_last(), prefix@));
                }
            }
            i += 1;
        }
        proof {
            assert(self.entries_view().take(n as int) =~= self.entries_view());
        }
        r
    }

    /// What a listing of this store means, stated over the store's map:
    /// listed names are present, carry their sizes, match the prefix, are
    /// distinct, and every matching present name is listed.
    pub proof fn lemma_listing(&self, prefix: Seq<char>)
        requires
            self.wf(),
        ensures
            forall|i: int| #![trigger prefix_entries(self.entries_view(), prefix)[i]]
                0 <= i < prefix_entries(self.entries_view(), prefix).len() ==> {
                    let p = prefix_entries(self.entries_view(), prefix)[i];
                    strutil::has_prefix(p.0, prefix) && self@.contains_key(p.0) && p.1
                        == self@[p.0].len()
                },
            forall|k: Seq<char>|
                self@.contains_key(k) && strutil::has_prefix(k, prefix) ==> exists|i: int|
                    0 <= i < prefix_entries(self.entries_view(), prefix).len()
                        && #[trigger] prefix_entries(self.entries_view(), prefix)[i].0 == k,
            forall|i: int, j: int|
                0 <= i < j < prefix_entries(self.entries_view(), prefix).len()
                    ==> #[trigger] prefix_entries(self.entries_view(), prefix)[i].0
                    != #[trigger] prefix_entries(self.entries_view(), prefix)[j].0,
    {
        lemma_prefix_entries_sound(self.entries_view(), prefix);
        lemma_prefix_entries_distinct(self.entries_view(), prefix);
        assert forall|k: Seq<char>|
            self@.contains_key(k) && strutil::has_prefix(k, prefix) implies exists|i: int|
                0 <= i < prefix_entries(self.entries_view(), prefix).len()
                    && #[trigger] prefix_entries(self.entries_view(), prefix)[i].0 == k by {
            lemma_prefix_entries_complete(self.entries_view(), prefix, k);
        }
    }
}

/// Copy a byte string.
pub fn clone_bytes(v: &Vec<u8>) -> (r: Vec<u8>)
    ensures
        r@ == v@,
{
    let n = v.len();
    let mut r: Vec<u8> = Vec::new();
    let mut i: usize = 0;
    while i < n
        invariant
            n == v@.len(),
            i <= n,
            r@ == v@.take(i as int),
        decreases n - i,
    {
        r.push(v[i]);
        proof {
            assert(r@ =~= v@.take(i as int + 1));
        }
        i += 1;
    }
    proof {
        assert(v@.take(n as int) =~= v@);
    }
    r
}

} // verus!
