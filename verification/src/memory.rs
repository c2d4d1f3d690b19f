use vstd::prelude::*;

use crate::backend::{self, Backend};
use crate::error::Error;
use crate::kvstore::{self, KvStore};
use crate::strutil;

verus! {

/// The test-only backend: an in-process mapping from key to bytes.
pub struct MemoryBackend {
    store: KvStore,
}

impl MemoryBackend {
    pub fn new() -> (r: MemoryBackend)
        ensures
            r.backend_wf(),
            r.store() == Map::<Seq<char>, Seq<u8>>::empty(),
    {
        MemoryBackend { store: KvStore::new() }
    }
}

impl Backend for MemoryBackend {
    closed spec fn store(&self) -> Map<Seq<char>, Seq<u8>> {
        self.store@
    }

    closed spec fn backend_wf(&self) -> bool {
        self.store.wf()
    }

    fn read(&self, from: &str) -> (r: Result<Vec<u8>, Error>) {
        match self.store.get(from) {
            Some(v) => Ok(kvstore::clone_bytes(v)),
            None => Err(Error::NotFound),
        }
    }

    fn write(&mut self, len: u64, from: &Vec<u8>, to: &str) -> (r: Result<(), Error>) {
        self.store.put(to, kvstore::clone_bytes(from));
        Ok(())
    }

    fn remove(&mut self, which: &str) -> (r: Result<(), Error>) {
        self.store.delete(which);
        Ok(())
    }

    #[verifier::rlimit(50)]
    fn list(&self, prefix: &str) -> (r: Result<Vec<(String, u64)>, Error>) {
        let v = self.store.list_prefix(prefix);
        proof {
            self.store.lemma_listing(prefix@);
            let pe = kvstore::prefix_entries(self.store.entries_view(), prefix@);
            let vv = v@.map_values(|p: (String, u64)| (p.0@, p.1));
            assert(vv.len() == v@.len());
            assert forall|i: int| #![trigger v@[i]]
                0 <= i < v@.len() implies strutil::has_prefix(v@[i].0@, prefix@)
                    && self.store().contains_key(v@[i].0@) && v@[i].1
                    == self.store()[v@[i].0@].len() by {
                assert(pe[i] == vv[i]);
                assert(vv[i] == (v@[i].0@, v@[i].1));
            }
            assert forall|k: Seq<char>|
                self.store().contains_key(k) && strutil::has_prefix(k, prefix@)
                    implies exists|i: int| 0 <= i < v@.len() && #[trigger] v@[i].0@ == k by {
                let i = choose|i: int| 0 <= i < pe.len() && #[trigger] pe[i].0 == k;
                assert(pe[i] == vv[i]);
                assert(vv[i] == (v@[i].0@, v@[i].1));
                assert(v@[i].0@ == k);
            }
            assert forall|i: int, j: int| #![trigger v@[i], v@[j]]
                0 <= i < j < v@.len() implies v@[i].0@ != v@[j].0@ by {
                assert(pe[i] == vv[i] && pe[j] == vv[j]);
                assert(vv[i] == (v@[i].0@, v@[i].1));
                assert(vv[j] == (v@[j].0@, v@[j].1));
                assert(pe[i].0 != pe[j].0);
            }
            assert(backend::listing_ok(self.store(), prefix@, v@));
        }
        Ok(v)
    }
}

} // verus!
