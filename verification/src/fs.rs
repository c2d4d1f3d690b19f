use vstd::prelude::*;

use crate::backend::{self, Backend};
use crate::error::Error;
use crate::kvstore::{self, KvStore};
use crate::strutil;

verus! {

/// A store whose keys map to paths under a root directory. The committed
/// objects are modeled as the mapping from repository-relative key to
/// bytes; [`FilesystemBackend::path_of`] renders the on-disk path of a
/// key for callers that move files into place directly.
pub struct FilesystemBackend {
    root: String,
    files: KvStore,
}

impl FilesystemBackend {
    /// The root directory this store lives under.
    pub closed spec fn root_view(&self) -> Seq<char> {
        self.root@
    }

    /// Open a store rooted at the given repository path.
    pub fn open(repository: &str) -> (r: FilesystemBackend)
        ensures
            r.backend_wf(),
            r.root_view() == repository@,
            r.store() == Map::<Seq<char>, Seq<u8>>::empty(),
    {
        FilesystemBackend { root: repository.to_owned(), files: KvStore::new() }
    }

    /// The on-disk path of a repository key: `<root>/<key>`.
    pub fn path_of(&self, key: &str) -> (r: String)
        ensures
            r@ == self.root_view() + seq!['/'] + key@,
    {
        proof {
            reveal_strlit("/");
            assert("/"@ =~= seq!['/']);
        }
        let mut p = strutil::concat_strs(self.root.as_str(), "/");
        p.append(key);
        p
    }
}

impl Backend for FilesystemBackend {
    closed spec fn store(&self) -> Map<Seq<char>, Seq<u8>> {
        self.files@
    }

    closed spec fn backend_wf(&self) -> bool {
        self.files.wf()
    }

    fn read(&self, from: &str) -> (r: Result<Vec<u8>, Error>) {
        match self.files.get(from) {
            Some(v) => Ok(kvstore::clone_bytes(v)),
            None => Err(Error::NotFound),
        }
    }

    fn write(&mut self, len: u64, from: &Vec<u8>, to: &str) -> (r: Result<(), Error>) {
        self.files.put(to, kvstore::clone_bytes(from));
        Ok(())
    }

    fn remove(&mut self, which: &str) -> (r: Result<(), Error>) {
        self.files.delete(which);
        Ok(())
    }

    #[verifier::rlimit(50)]
    fn list(&self, prefix: &str) -> (r: Result<Vec<(String, u64)>, Error>) {
        let v = self.files.list_prefix(prefix);
        proof {
            self.files.lemma_listing(prefix@);
            let pe = kvstore::prefix_entries(self.files.entries_view(), prefix@);
            let vv = v@.map_values(|p: (String, u64)| (p.0@, p.1));
            assert(vv.len() == v@.len());
            assert forall|i: int| #![trigger v@[i]]
                0 <= i < v@.len() implies strutil::has_prefix(v@[i].0@, prefix@)
                    && self.store().contains_key(v@[i].0@) && v@[i].1
                    == self.store()[v@[i].0@].len() by {
                assert(pe[i] == vv[i]);
                assert(vv[i] == (v@[i].0@, v@[i].1));
            }
            assert forall|k: Seq<char>|
                self.store().contains_key(k) && strutil::has_prefix(k, prefix@)
                    implies exists|i: int| 0 <= i < v@.len() && #[trigger] v@[i].0@ == k by {
                let i = choose|i: int| 0 <= i < pe.len() && #[trigger] pe[i].0 == k;
                assert(pe[i] == vv[i]);
                assert(vv[i] == (v@[i].0@, v@[i].1));
                assert(v@[i].0@ == k);
            }
            assert forall|i: int, j: int| #![trigger v@[i], v@[j]]
                0 <= i < j < v@.len() implies v@[i].0@ != v@[j].0@ by {
                assert(pe[i] == vv[i] && pe[j] == vv[j]);
                assert(vv[i] == (v@[i].0@, v@[i].1));
                assert(vv[j] == (v@[j].0@, v@[j].1));
                assert(pe[i].0 != pe[j].0);
            }
            assert(backend::listing_ok(self.store(), prefix@, v@));
        }
        Ok(v)
    }
}

} // verus!
