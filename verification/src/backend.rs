//! Places where a backup repository lives, and the write-through facade
//! that mediates every read, write, listing, and deletion against them.

use vstd::prelude::*;

use crate::cache::{self, Cache};
use crate::error::Error;
use crate::fs::FilesystemBackend;
use crate::hashing::{self, ObjectId};
use crate::kvstore;
use crate::memory::MemoryBackend;
use crate::strutil;

verus! {

/// The kind of store a repository lives in, as configured.
#[derive(Clone, Debug, PartialEq)]
pub enum Kind {
    Filesystem { force_cache: bool },
    Backblaze {
        key_id: String,
        application_key: String,
        bucket: String,
        concurrent_connections: u32,
    },
}

/// The default pack size target, in bytes (a hundred mebibytes).
pub const DEFAULT_PACK_SIZE: u64 = 104857600;

/// A repository configuration, normalized so that `filter` and
/// `unfilter` are both present or both absent.
#[derive(Debug)]
pub struct Configuration {
    pub pack_size: u64,
    pub kind: Kind,
    pub filter: Option<(String, String)>,
}

/// Whether a configuration routes to the direct, uncached filesystem
/// shape: a plain filesystem store with no filter and no forced cache.
pub open spec fn routes_direct(kind: Kind, has_filter: bool) -> bool {
    match kind {
        Kind::Filesystem { force_cache } => !force_cache && !has_filter,
        _ => false,
    }
}

/// Decide the facade shape a configuration calls for.
pub fn use_direct(kind: &Kind, has_filter: bool) -> (r: bool)
    ensures
        r == routes_direct(*kind, has_filter),
{
    match kind {
        Kind::Filesystem { force_cache } => !*force_cache && !has_filter,
        _ => false,
    }
}

/// Normalize the fields read from a repository's configuration document.
/// Setting exactly one of `filter` and `unfilter` is invalid; an omitted
/// pack size falls back to the default.
pub fn normalize_config(
    pack_size: Option<u64>,
    kind: Kind,
    filter: Option<String>,
    unfilter: Option<String>,
) -> (r: Result<Configuration, Error>)
    ensures
        match r {
            Ok(c) => {
                &&& (filter is Some) == (unfilter is Some)
                &&& c.pack_size == if pack_size is Some {
                    pack_size->0
                } else {
                    DEFAULT_PACK_SIZE
                }
                &&& c.kind == kind
                &&& (c.filter is Some) == (filter is Some)
                &&& c.filter is Some ==> (c.filter->0).0 == filter->0 && (c.filter->0).1
                    == unfilter->0
            },
            Err(e) => e == Error::ConfigInvalid && (filter is Some) != (unfilter is Some),
        },
{
    let joined = match (filter, unfilter) {
        (Some(f), Some(u)) => Some((f, u)),
        (None, None) => None,
        _ => {
            return Err(Error::ConfigInvalid);
        },
    };
    let size = match pack_size {
        Some(s) => s,
        None => DEFAULT_PACK_SIZE,
    };
    Ok(Configuration { pack_size: size, kind, filter: joined })
}

/// Whether reads may be served from the local cache.
#[derive(Debug, PartialEq, Eq, Structural, Clone, Copy)]
pub enum CacheBehavior {
    /// Always write through to the backend, but serve reads from the
    /// cache when the entry is present.
    Normal,
    /// Always write through to the backend, and always read from the
    /// backend as well (inserting into the cache).
    AlwaysRead,
}

/// A backend is anything we can read from, write to, list, and remove
/// items from. Its model is the mapping from committed keys to bytes.
pub trait Backend: Sized {
    /// The committed objects, by key.
    spec fn store(&self) -> Map<Seq<char>, Seq<u8>>;

    /// The backend's internal well-formedness.
    spec fn backend_wf(&self) -> bool;

    /// Read the object at the given key; fails with `NotFound` exactly
    /// when the key is absent.
    fn read(&self, from: &str) -> (r: Result<Vec<u8>, Error>)
        requires
            self.backend_wf(),
        ensures
            match r {
                Ok(v) => self.store().contains_key(from@) && v@ == self.store()[from@],
                Err(e) => e == Error::NotFound && !self.store().contains_key(from@),
            },
    ;

    /// Commit exactly `len` bytes under the given key, atomically.
    fn write(&mut self, len: u64, from: &Vec<u8>, to: &str) -> (r: Result<(), Error>)
        requires
            old(self).backend_wf(),
            len == from@.len(),
        ensures
            final(self).backend_wf(),
            r is Ok,
            final(self).store() == old(self).store().insert(to@, from@),
    ;

    /// Remove a key; a missing key is not an error.
    fn remove(&mut self, which: &str) -> (r: Result<(), Error>)
        requires
            old(self).backend_wf(),
        ensures
            final(self).backend_wf(),
            r is Ok,
            final(self).store() == old(self).store().remove(which@),
    ;

    /// List all committed keys with the given prefix, with their sizes.
    fn list(&self, prefix: &str) -> (r: Result<Vec<(String, u64)>, Error>)
        requires
            self.backend_wf(),
        ensures
            match r {
                Ok(v) => listing_ok(self.store(), prefix@, v@),
                Err(_) => false,
            },
    ;
}

/// What a listing means: listed keys are present with their true size,
/// carry the prefix, and appear once; every present key with the prefix
/// is listed.
pub open spec fn listing_ok(
    store: Map<Seq<char>, Seq<u8>>,
    prefix: Seq<char>,
    v: Seq<(String, u64)>,
) -> bool {
    &&& forall|i: int| #![trigger v[i]]
        0 <= i < v.len() ==> strutil::has_prefix(v[i].0@, prefix)
            && store.contains_key(v[i].0@) && v[i].1 == store[v[i].0@].len()
    &&& forall|k: Seq<char>|
        store.contains_key(k) && strutil::has_prefix(k, prefix) ==> exists|i: int|
            0 <= i < v.len() && #[trigger] v[i].0@ == k
    &&& forall|i: int, j: int| #![trigger v[i], v[j]] 0 <= i < j < v.len() ==> v[i].0@ != v[j].0@
}

/// A readable, seekable handle over an object's bytes.
pub trait SeekableRead: Sized {
    /// The bytes behind the handle.
    spec fn data(&self) -> Seq<u8>;

    /// The current read position.
    spec fn pos(&self) -> int;

    /// Move the read position to `to`.
    fn seek_start(&mut self, to: usize)
        requires
            old(self).pos() <= old(self).data().len(),
            to <= old(self).data().len(),
        ensures
            final(self).data() == old(self).data(),
            final(self).pos() == to,
    ;

    /// Read everything from the current position to the end.
    fn read_to_end(&mut self) -> (r: Vec<u8>)
        requires
            0 <= old(self).pos() <= old(self).data().len(),
        ensures
            final(self).data() == old(self).data(),
            final(self).pos() == old(self).data().len(),
            r@ == old(self).data().skip(old(self).pos()),
    ;
}

/// An in-memory read cursor over an object's bytes.
pub struct Cursor {
    bytes: Vec<u8>,
    at: usize,
}

impl Cursor {
    pub fn new(bytes: Vec<u8>) -> (r: Cursor)
        ensures
            r.data() == bytes@,
            r.pos() == 0,
    {
        Cursor { bytes, at: 0 }
    }

    /// A cursor positioned at the end, as a handle freshly streamed into
    /// leaves it.
    pub fn new_at_end(bytes: Vec<u8>) -> (r: Cursor)
        ensures
            r.data() == bytes@,
            r.pos() == r.data().len(),
    {
        let at = bytes.len();
        Cursor { bytes, at }
    }

    pub fn len(&self) -> (r: usize)
        ensures
            r == self.data().len(),
    {
        self.bytes.len()
    }
}

impl SeekableRead for Cursor {
    closed spec fn data(&self) -> Seq<u8> {
        self.bytes@
    }

    closed spec fn pos(&self) -> int {
        self.at as int
    }

    fn seek_start(&mut self, to: usize) {
        self.at = to;
    }

    fn read_to_end(&mut self) -> (r: Vec<u8>) {
        let n = self.bytes.len();
        let mut r: Vec<u8> = Vec::new();
        let mut i: usize = self.at;
        while i < n
            invariant
                n == self.bytes@.len(),
                self.at <= i <= n,
                self.bytes@ == old(self).bytes@,
                self.at == old(self).at,
                r@ == self.bytes@.subrange(self.at as int, i as int),
            decreases n - i,
        {
            r.push(self.bytes[i]);
            proof {
                assert(r@ =~= self.bytes@.subrange(self.at as int, i as int + 1));
            }
            i += 1;
        }
        self.at = n;
        proof {
            assert(r@ =~= old(self).bytes@.skip(old(self).at as int));
        }
        r
    }
}

/// The `.pack` name suffix.
pub open spec fn pack_suffix() -> Seq<char> {
    seq!['.', 'p', 'a', 'c', 'k']
}

/// The `.index` name suffix.
pub open spec fn index_suffix() -> Seq<char> {
    seq!['.', 'i', 'n', 'd', 'e', 'x']
}

/// The `.snapshot` name suffix.
pub open spec fn snapshot_suffix() -> Seq<char> {
    seq!['.', 's', 'n', 'a', 'p', 's', 'h', 'o', 't']
}

/// A name the layout understands: a non-empty stem followed by one of the
/// three object suffixes.
pub open spec fn valid_object_name(s: Seq<char>) -> bool {
    ||| (s.len() > pack_suffix().len() && strutil::has_suffix(s, pack_suffix()))
    ||| (s.len() > index_suffix().len() && strutil::has_suffix(s, index_suffix()))
    ||| (s.len() > snapshot_suffix().len() && strutil::has_suffix(s, snapshot_suffix()))
}

/// The repository key a flat object name is stored under.
pub open spec fn destination_spec(s: Seq<char>) -> Seq<char> {
    if strutil::has_suffix(s, pack_suffix()) {
        seq!['p', 'a', 'c', 'k', 's', '/'] + s
    } else if strutil::has_suffix(s, index_suffix()) {
        seq!['i', 'n', 'd', 'e', 'x', 'e', 's', '/'] + s
    } else {
        seq!['s', 'n', 'a', 'p', 's', 'h', 'o', 't', 's', '/'] + s
    }
}

/// Reshape a flat `<id>.<kind>` name to its repository key
/// `<kind>s/<id>.<kind>`, so prefix listing at the backend is cheap.
/// Names with any other shape are a programming error and are ruled out.
pub fn destination(src: &str) -> (r: String)
    requires
        valid_object_name(src@),
    ensures
        r@ == destination_spec(src@),
{
    proof {
        reveal_strlit(".pack");
        reveal_strlit(".index");
        reveal_strlit(".snapshot");
        reveal_strlit("packs/");
        reveal_strlit("indexes/");
        reveal_strlit("snapshots/");
        assert(".pack"@ =~= pack_suffix());
        assert(".index"@ =~= index_suffix());
        assert(".snapshot"@ =~= snapshot_suffix());
        assert("packs/"@ =~= seq!['p', 'a', 'c', 'k', 's', '/']);
        assert("indexes/"@ =~= seq!['i', 'n', 'd', 'e', 'x', 'e', 's', '/']);
        assert("snapshots/"@ =~= seq!['s', 'n', 'a', 'p', 's', 'h', 'o', 't', 's', '/']);
    }
    if strutil::ends_with(src, ".pack") {
        strutil::concat_strs("packs/", src)
    } else if strutil::ends_with(src, ".index") {
        strutil::concat_strs("indexes/", src)
    } else {
        strutil::concat_strs("snapshots/", src)
    }
}

/// How often a key occurs in a listing.
pub open spec fn listing_matches(entries: Seq<(String, u64)>, key: Seq<char>) -> int
    decreases entries.len(),
{
    if entries.len() == 0 {
        0int
    } else {
        listing_matches(entries.drop_last(), key) + if entries.last().0@ == key {
            1int
        } else {
            0int
        }
    }
}

/// Given a listing of packs, check that a pack with the given ID occurs
/// exactly once. A missing pack is `NotFound`; several copies are a
/// repository corruption, surfaced as fatal.
pub fn probe_pack(packs: &Vec<(String, u64)>, id: &ObjectId) -> (r: Result<(), Error>)
    ensures
        ({
            let key = seq!['p', 'a', 'c', 'k', 's', '/'] + id@ + pack_suffix();
            match r {
                Ok(()) => listing_matches(packs@, key) == 1,
                Err(Error::NotFound) => listing_matches(packs@, key) == 0,
                Err(Error::Fatal) => listing_matches(packs@, key) > 1,
                Err(_) => false,
            }
        }),
{
    let base32 = id.to_string();
    let with_suffix = strutil::concat_strs(base32.as_str(), ".pack");
    let pack_path = strutil::concat_strs("packs/", with_suffix.as_str());
    proof {
        reveal_strlit(".pack");
        reveal_strlit("packs/");
        assert(".pack"@ =~= pack_suffix());
        assert("packs/"@ =~= seq!['p', 'a', 'c', 'k', 's', '/']);
    }
    let ghost key = seq!['p', 'a', 'c', 'k', 's', '/'] + id@ + pack_suffix();
    proof {
        assert(pack_path@ =~= key);
    }
    let n = packs.len();
    let mut found: u64 = 0;
    let mut i: usize = 0;
    proof {
        assert(packs@.take(0) =~= Seq::<(String, u64)>::empty());
    }
    while i < n
        invariant
            n == packs@.len(),
            i <= n,
            found <= i,
            found == listing_matches(packs@.take(i as int), key),
            pack_path@ == key,
        decreases n - i,
    {
        proof {
            assert(packs@.take(i as int + 1).drop_last() =~= packs@.take(i as int));
            assert(packs@.take(i as int + 1).last() == packs@[i as int]);
        }
        if strutil::str_eq(packs[i].0.as_str(), pack_path.as_str()) {
            found += 1;
        }
        i += 1;
    }
    proof {
        assert(packs@.take(n as int) =~= packs@);
    }
    if found == 0 {
        Err(Error::NotFound)
    } else if found == 1 {
        Ok(())
    } else {
        Err(Error::Fatal)
    }
}

/// The portion of a path after its last `/`.
pub open spec fn after_last_slash(s: Seq<char>) -> Seq<char>
    decreases s.len(),
{
    if s.len() == 0 {
        s
    } else if s.last() == '/' {
        Seq::empty()
    } else {
        after_last_slash(s.drop_last()).push(s.last())
    }
}

/// The portion of a file name before its last `.`, the whole name when it
/// has none.
pub open spec fn before_last_dot(s: Seq<char>) -> Seq<char>
    decreases s.len(),
{
    if s.len() == 0 {
        s
    } else if s.last() == '.' {
        s.drop_last()
    } else {
        before_last_dot(s.drop_last())
    }
}

/// The stem a path's object ID is read from: the file name, stripped of
/// its extension.
pub open spec fn stem_spec(s: Seq<char>) -> Seq<char> {
    let f = after_last_slash(s);
    if f.contains('.') {
        before_last_dot(f)
    } else {
        f
    }
}

/// Read the ID of an object from its path, assumed to be
/// `some/components/<id>.<extension>`. Fails exactly when the stem is not
/// a well-formed identifier.
pub fn id_from_path(path: &str) -> (r: Result<ObjectId, Error>)
    ensures
        match r {
            Ok(id) => id@ == stem_spec(path@) && hashing::valid_id(stem_spec(path@)),
            Err(e) => e == Error::Integrity && !hashing::valid_id(stem_spec(path@)),
        },
{
    let n = path.unicode_len();
    // find the character just past the last '/'
    let mut start: usize = n;
    loop
        invariant
            n == path@.len(),
            0 <= start <= n,
            forall|j: int| start <= j < n ==> path@[j] != '/',
        ensures
            0 <= start <= n,
            forall|j: int| start <= j < n ==> path@[j] != '/',
            start == 0 || path@[start - 1] == '/',
        decreases start,
    {
        if start == 0 {
            break;
        }
        if path.get_char(start - 1) == '/' {
            break;
        }
        start -= 1;
    }
    let ghost fname = path@.skip(start as int);
    proof {
        lemma_after_last_slash(path@, start as int);
    }
    // find the last '.' in the file name, if it has one
    let mut stop: usize = n;
    let mut j: usize = n;
    loop
        invariant_except_break
            n == path@.len(),
            start <= j <= n,
            forall|k: int| j <= k < n ==> path@[k] != '.',
            stop == n,
        ensures
            start <= stop <= n,
            (stop == n && forall|k: int| start <= k < n ==> path@[k] != '.') || (stop < n
                && path@[stop as int] == '.' && forall|k: int|
                stop < k < n ==> path@[k] != '.'),
        decreases j,
    {
        if j == start {
            break;
        }
        if path.get_char(j - 1) == '.' {
            stop = j - 1;
            break;
        }
        j -= 1;
    }
    let ghost stem = stem_spec(path@);
    proof {
        if stop < n {
            assert(fname.contains('.')) by {
                assert(fname[stop - start] == path@[stop as int]);
            }
            lemma_before_last_dot(path@, start as int, stop as int);
        } else {
            assert(!fname.contains('.')) by {
                if fname.contains('.') {
                    let q = choose|q: int| 0 <= q < fname.len() && fname[q] == '.';
                    assert(path@[start + q] == '.');
                }
            }
            assert(stem =~= path@.subrange(start as int, n as int));
        }
    }
    let stem_str = path.substring_char(start, stop);
    proof {
        assert(stem_str@ == stem);
    }
    match ObjectId::parse(stem_str) {
        Some(id) => Ok(id),
        None => Err(Error::Integrity),
    }
}

proof fn lemma_after_last_slash(s: Seq<char>, start: int)
    requires
        0 <= start <= s.len(),
        forall|j: int| start <= j < s.len() ==> s[j] != '/',
        start == 0 || s[start - 1] == '/',
    ensures
        after_last_slash(s) == s.skip(start),
    decreases s.len(),
{
    if s.len() == 0 {
        assert(s.skip(0) =~= s);
    } else if s.last() == '/' {
        assert(start == s.len());
        assert(s.skip(start) =~= Seq::<char>::empty());
    } else {
        assert(start < s.len());
        lemma_after_last_slash(s.drop_last(), start);
        assert(after_last_slash(s) == s.drop_last().skip(start).push(s.last()));
        assert(s.drop_last().skip(start).push(s.last()) =~= s.skip(start));
    }
}

proof fn lemma_before_last_dot(s: Seq<char>, start: int, stop: int)
    requires
        0 <= start <= stop < s.len(),
        forall|j: int| start <= j < s.len() ==> s[j] != '/',
        start == 0 || s[start - 1] == '/',
        s[stop] == '.',
        forall|j: int| stop < j < s.len() ==> s[j] != '.',
    ensures
        stem_spec(s) == s.subrange(start, stop),
    decreases s.len(),
{
    lemma_after_last_slash(s, start);
    let f = s.skip(start);
    assert(f[stop - start] == '.');
    assert(f.contains('.'));
    lemma_before_last_dot_inner(f, stop - start);
    assert(f.take(stop - start) =~= s.subrange(start, stop));
}

proof fn lemma_before_last_dot_inner(f: Seq<char>, d: int)
    requires
        0 <= d < f.len(),
        f[d] == '.',
        forall|j: int| d < j < f.len() ==> f[j] != '.',
    ensures
        before_last_dot(f) == f.take(d),
    decreases f.len(),
{
    if d == f.len() - 1 {
        assert(f.last() == '.');
        assert(f.drop_last() =~= f.take(d));
    } else {
        assert(f.last() != '.');
        lemma_before_last_dot_inner(f.drop_last(), d);
        assert(f.drop_last().take(d) =~= f.take(d));
    }
}

/// Initializes an in-memory backend for testing purposes.
pub fn in_memory() -> (r: CachedBackend<MemoryBackend>)
    ensures
        r.wf(),
        r.is_memory(),
        !r.is_direct(),
        !r.is_cached(),
        r.objects() == Map::<Seq<char>, Seq<u8>>::empty(),
        r.downloaded() == 0,
        r.uploaded() == 0,
{
    CachedBackend::new(CachedBackendKind::Memory { backend: MemoryBackend::new() })
}

/// The three store shapes the facade routes between.
enum CachedBackendKind<B: Backend> {
    /// A plain filesystem store: nothing is won by caching, so reads and
    /// writes go to the files directly.
    File { backend: FilesystemBackend },
    /// The usual case: remotely-hosted or filtered storage, fronted by a
    /// write-through cache.
    Cached { cache: Cache, behavior: CacheBehavior, backend: B },
    /// The in-process test store.
    Memory { backend: MemoryBackend },
}

/// The write-through facade over a concrete store: layout-aware, caches
/// reads, counts transferred bytes.
pub struct CachedBackend<B: Backend> {
    inner: CachedBackendKind<B>,
    dl: u64,
    ul: u64,
}

impl<B: Backend> CachedBackend<B> {
    fn new(inner: CachedBackendKind<B>) -> (r: CachedBackend<B>)
        ensures
            r.inner_is(inner),
            r.downloaded() == 0,
            r.uploaded() == 0,
    {
        CachedBackend { inner, dl: 0, ul: 0 }
    }

    spec fn inner_is(&self, k: CachedBackendKind<B>) -> bool {
        self.inner == k
    }

    /// Bytes fetched from the underlying store, over this handle's life.
    pub closed spec fn downloaded(&self) -> u64 {
        self.dl
    }

    /// Bytes pushed to the underlying store, over this handle's life.
    pub closed spec fn uploaded(&self) -> u64 {
        self.ul
    }

    /// Read off the download counter.
    pub fn bytes_downloaded(&self) -> (r: u64)
        ensures
            r == self.downloaded(),
    {
        self.dl
    }

    /// Read off the upload counter.
    pub fn bytes_uploaded(&self) -> (r: u64)
        ensures
            r == self.uploaded(),
    {
        self.ul
    }

    pub closed spec fn is_direct(&self) -> bool {
        self.inner is File
    }

    pub closed spec fn is_cached(&self) -> bool {
        self.inner is Cached
    }

    pub closed spec fn is_memory(&self) -> bool {
        self.inner is Memory
    }

    /// The committed objects of the underlying store, by repository key.
    pub closed spec fn objects(&self) -> Map<Seq<char>, Seq<u8>> {
        match self.inner {
            CachedBackendKind::File { backend } => backend.store(),
            CachedBackendKind::Cached { backend, .. } => backend.store(),
            CachedBackendKind::Memory { backend } => backend.store(),
        }
    }

    pub closed spec fn wf(&self) -> bool {
        match self.inner {
            CachedBackendKind::File { backend } => backend.backend_wf(),
            CachedBackendKind::Cached { cache, behavior, backend } => {
                &&& backend.backend_wf()
                &&& cache.wf()
                &&& cache.within_budget()
                &&& cache_coherent(cache.entries_view(), backend.store())
            },
            CachedBackendKind::Memory { backend } => backend.backend_wf(),
        }
    }
}

/// A finished object handed to [`CachedBackend::write`]: the bytes of a
/// temporary file whose ownership passes to the facade, which disposes
/// of it once the object is durably stored.
pub struct TempFile {
    bytes: Vec<u8>,
}

impl View for TempFile {
    type V = Seq<u8>;

    closed spec fn view(&self) -> Seq<u8> {
        self.bytes@
    }
}

impl TempFile {
    pub fn new(bytes: Vec<u8>) -> (r: TempFile)
        ensures
            r@ == bytes@,
    {
        TempFile { bytes }
    }

    pub fn len(&self) -> (r: usize)
        ensures
            r == self@.len(),
    {
        self.bytes.len()
    }
}

/// The flat name of a pack object.
pub open spec fn pack_name(id: Seq<char>) -> Seq<char> {
    id + pack_suffix()
}

/// The flat name of an index object.
pub open spec fn index_name(id: Seq<char>) -> Seq<char> {
    id + index_suffix()
}

/// The flat name of a snapshot object.
pub open spec fn snapshot_name(id: Seq<char>) -> Seq<char> {
    id + snapshot_suffix()
}

/// The length of the object under `k`, zero when absent.
pub open spec fn obj_len(m: Map<Seq<char>, Seq<u8>>, k: Seq<char>) -> int {
    if m.contains_key(k) {
        m[k].len() as int
    } else {
        0int
    }
}

/// Every cache entry names an object the store holds, with the same
/// bytes: the cache never gets ahead of the backend.
pub open spec fn cache_coherent(
    es: Seq<(Seq<char>, Seq<u8>)>,
    objects: Map<Seq<char>, Seq<u8>>,
) -> bool {
    forall|i: int| #![trigger es[i]]
        0 <= i < es.len() ==> valid_object_name(es[i].0) && objects.contains_key(
            destination_spec(es[i].0),
        ) && objects[destination_spec(es[i].0)] == es[i].1
}

/// Distinct valid object names land on distinct repository keys.
pub proof fn lemma_destination_injective(a: Seq<char>, b: Seq<char>)
    requires
        valid_object_name(a),
        valid_object_name(b),
        destination_spec(a) == destination_spec(b),
    ensures
        a == b,
{
    let da = destination_spec(a);
    let db = destination_spec(b);
    if strutil::has_suffix(a, pack_suffix()) {
        assert(a.last() == 'k');
    } else if strutil::has_suffix(a, index_suffix()) {
        assert(a.last() == 'x');
    } else {
        assert(a.last() == 't');
    }
    if strutil::has_suffix(b, pack_suffix()) {
        assert(b.last() == 'k');
    } else if strutil::has_suffix(b, index_suffix()) {
        assert(b.last() == 'x');
    } else {
        assert(b.last() == 't');
    }
    assert(da[0] == db[0]);
    assert(a.len() > 0 && b.len() > 0);
    assert(da.last() == a.last() && db.last() == b.last());
    if strutil::has_suffix(a, pack_suffix()) {
        assert(strutil::has_suffix(b, pack_suffix()));
        assert(a =~= b) by {
            assert(forall|i: int| 0 <= i < a.len() ==> da[6 + i] == a[i]);
            assert(forall|i: int| 0 <= i < b.len() ==> db[6 + i] == b[i]);
        }
    } else if strutil::has_suffix(a, index_suffix()) {
        assert(strutil::has_suffix(b, index_suffix()));
        assert(a =~= b) by {
            assert(forall|i: int| 0 <= i < a.len() ==> da[8 + i] == a[i]);
            assert(forall|i: int| 0 <= i < b.len() ==> db[8 + i] == b[i]);
        }
    } else {
        assert(strutil::has_suffix(b, snapshot_suffix()));
        assert(a =~= b) by {
            assert(forall|i: int| 0 <= i < a.len() ==> da[10 + i] == a[i]);
            assert(forall|i: int| 0 <= i < b.len() ==> db[10 + i] == b[i]);
        }
    }
}

/// Every surviving entry of a pruned cache was an entry before pruning.
pub proof fn lemma_pruned_from(es: Seq<(Seq<char>, Seq<u8>)>, b: u64)
    ensures
        forall|i: int| #![trigger cache::pruned(es, b)[i]]
            0 <= i < cache::pruned(es, b).len() ==> exists|j: int|
                0 <= j < es.len() && es[j] == cache::pruned(es, b)[i],
    decreases es.len(),
{
    if cache::total_size(es) <= b || es.len() == 0 {
        assert(forall|i: int| #![trigger cache::pruned(es, b)[i]]
            0 <= i < cache::pruned(es, b).len() ==> es[i] == cache::pruned(es, b)[i]);
    } else {
        lemma_pruned_from(es.drop_first(), b);
        assert forall|i: int| #![trigger cache::pruned(es, b)[i]]
            0 <= i < cache::pruned(es, b).len() implies exists|j: int|
                0 <= j < es.len() && es[j] == cache::pruned(es, b)[i] by {
            assert(cache::pruned(es, b) == cache::pruned(es.drop_first(), b));
            let j = choose|j: int|
                0 <= j < es.drop_first().len() && es.drop_first()[j] == cache::pruned(es, b)[i];
            assert(es[j + 1] == es.drop_first()[j]);
        }
    }
}

impl<B: Backend> CachedBackend<B> {
    /// The cache's entries; empty in the uncached shapes.
    pub closed spec fn cache_entries(&self) -> Seq<(Seq<char>, Seq<u8>)> {
        match self.inner {
            CachedBackendKind::Cached { cache, .. } => cache.entries_view(),
            _ => Seq::empty(),
        }
    }

    /// The cache's byte budget; zero in the uncached shapes.
    pub closed spec fn cache_budget(&self) -> u64 {
        match self.inner {
            CachedBackendKind::Cached { cache, .. } => cache.budget_view(),
            _ => 0,
        }
    }

    /// The configured cache behavior; `Normal` in the uncached shapes.
    pub closed spec fn behavior_view(&self) -> CacheBehavior {
        match self.inner {
            CachedBackendKind::Cached { behavior, .. } => behavior,
            _ => CacheBehavior::Normal,
        }
    }

    /// Open a facade straight onto a filesystem store, with no cache.
    pub fn open_direct(backend: FilesystemBackend) -> (r: CachedBackend<B>)
        requires
            backend.backend_wf(),
        ensures
            r.wf(),
            r.is_direct(),
            !r.is_cached(),
            !r.is_memory(),
            r.objects() == backend.store(),
            r.downloaded() == 0,
            r.uploaded() == 0,
    {
        CachedBackend::new(CachedBackendKind::File { backend })
    }

    /// Open a facade that fronts the given store with a write-through
    /// cache.
    pub fn open_cached(backend: B, cache: Cache, behavior: CacheBehavior) -> (r: CachedBackend<B>)
        requires
            backend.backend_wf(),
            cache.wf(),
            cache.entries_view() == Seq::<(Seq<char>, Seq<u8>)>::empty(),
        ensures
            r.wf(),
            r.is_cached(),
            !r.is_direct(),
            !r.is_memory(),
            r.objects() == backend.store(),
            r.cache_entries() == cache.entries_view(),
            r.cache_budget() == cache.budget_view(),
            r.behavior_view() == behavior,
            r.downloaded() == 0,
            r.uploaded() == 0,
    {
        proof {
            cache::lemma_total_nonneg(cache.entries_view());
        }
        CachedBackend::new(CachedBackendKind::Cached { cache, behavior, backend })
    }

    /// Read the object at the given flat name and return a handle over
    /// its bytes, positioned at zero. Serves the cache on a hit in
    /// `Normal` behavior; otherwise fetches, inserts into the cache,
    /// prunes, and rewinds. Fails with `NotFound` exactly when the
    /// object is absent.
    fn read(&mut self, name: &str) -> (r: Result<Cursor, Error>)
        requires
            old(self).wf(),
            valid_object_name(name@),
            old(self).downloaded() + obj_len(old(self).objects(), destination_spec(name@))
                <= u64::MAX,
        ensures
            read_post(*old(self), *final(self), name@, r),
    {
        let ghost key = destination_spec(name@);
        let dest = destination(name);
        match &mut self.inner {
            CachedBackendKind::File { backend } => {
                match backend.read(dest.as_str()) {
                    Ok(bytes) => {
                        let len: u64 = bytes.len() as u64;
                        self.dl = self.dl + len;
                        Ok(Cursor::new(bytes))
                    },
                    Err(e) => Err(e),
                }
            },
            CachedBackendKind::Cached { cache, behavior, backend } => {
                let ghost es = cache.entries_view();
                let always = *behavior == CacheBehavior::AlwaysRead;
                let tr = if always {
                    None
                } else {
                    cache.try_read(name)
                };
                proof {
                    cache::lemma_idx_of(es, name@);
                }
                if let Some(hit) = tr {
                    proof {
                        let i = cache::idx_of(es, name@);
                        assert(es[i].0 == name@);
                        assert(self.objects().contains_key(destination_spec(es[i].0)));
                        assert(hit.data() == self.objects()[key]);
                        assert forall|a: int| #![trigger cache.entries_view()[a]]
                            0 <= a < cache.entries_view().len() implies valid_object_name(
                            cache.entries_view()[a].0,
                        ) && self.objects().contains_key(
                            destination_spec(cache.entries_view()[a].0),
                        ) && self.objects()[destination_spec(cache.entries_view()[a].0)]
                            == cache.entries_view()[a].1 by {
                            if a < cache.entries_view().len() - 1 {
                                if a < i {
                                    assert(cache.entries_view()[a] == es.remove(i)[a]);
                                    assert(es.remove(i)[a] == es[a]);
                                } else {
                                    assert(cache.entries_view()[a] == es.remove(i)[a]);
                                    assert(es.remove(i)[a] == es[a + 1]);
                                }
                            } else {
                                assert(cache.entries_view()[a] == (name@, es[i].1));
                            }
                        }
                    }
                    Ok(hit)
                } else {
                    match backend.read(dest.as_str()) {
                        Ok(bytes) => {
                            let len: u64 = bytes.len() as u64;
                            self.dl = self.dl + len;
                            let ghost es2 = cache.entries_view();
                            proof {
                                assert(es2 == es);
                            }
                            let mut inserted = cache.insert(name, bytes);
                            let ghost after_insert = cache.entries_view();
                            cache.prune();
                            inserted.seek_start(0);
                            proof {
                                lemma_pruned_from(after_insert, cache.budget_view());
                                cache::lemma_idx_of(es, name@);
                                assert forall|a: int| #![trigger cache.entries_view()[a]]
                                    0 <= a < cache.entries_view().len() implies valid_object_name(
                                    cache.entries_view()[a].0,
                                ) && self.objects().contains_key(
                                    destination_spec(cache.entries_view()[a].0),
                                ) && self.objects()[destination_spec(cache.entries_view()[a].0)]
                                    == cache.entries_view()[a].1 by {
                                    let j = choose|j: int|
                                        0 <= j < after_insert.len() && after_insert[j]
                                            == cache.entries_view()[a];
                                    if j < after_insert.len() - 1 {
                                        let rk = cache::remove_key(es, name@);
                                        assert(after_insert[j] == rk[j]);
                                        if cache::idx_of(es, name@) >= 0 {
                                            let i = cache::idx_of(es, name@);
                                            if j < i {
                                                assert(rk[j] == es[j]);
                                            } else {
                                                assert(rk[j] == es[j + 1]);
                                            }
                                        }
                                    } else {
                                        assert(after_insert[j] == (name@, self.objects()[key]));
                                    }
                                }
                            }
                            Ok(inserted)
                        },
                        Err(e) => Err(e),
                    }
                }
            },
            CachedBackendKind::Memory { backend } => {
                match backend.read(dest.as_str()) {
                    Ok(bytes) => Ok(Cursor::new(bytes)),
                    Err(e) => Err(e),
                }
            },
        }
    }

    /// Whether two facade states share mode, cache budget, and behavior.
    pub open spec fn same_shape(&self, other: CachedBackend<B>) -> bool {
        &&& self.is_direct() == other.is_direct()
        &&& self.is_cached() == other.is_cached()
        &&& self.is_memory() == other.is_memory()
        &&& self.cache_budget() == other.cache_budget()
        &&& self.behavior_view() == other.behavior_view()
    }

    /// Take the completed file and its flat `<id>.<kind>` name, and
    /// durably store it under the key `destination` assigns. The object
    /// is committed to the backend before it may appear in the cache;
    /// the temporary file's ownership ends here.
    pub fn write(&mut self, name: &str, fh: TempFile) -> (r: Result<(), Error>)
        requires
            old(self).wf(),
            valid_object_name(name@),
            old(self).uploaded() + fh@.len() <= u64::MAX,
        ensures
            final(self).wf(),
            final(self).same_shape(*old(self)),
            r is Ok,
            final(self).objects() == old(self).objects().insert(destination_spec(name@), fh@),
            final(self).uploaded() == old(self).uploaded() + fh@.len(),
            final(self).downloaded() == old(self).downloaded(),
            final(self).cache_entries() == if old(self).is_cached() {
                cache::pruned(
                    cache::remove_key(old(self).cache_entries(), name@).push((name@, fh@)),
                    old(self).cache_budget(),
                )
            } else {
                old(self).cache_entries()
            },
    {
        let ghost key = destination_spec(name@);
        let bytes = fh.bytes;
        let len: u64 = bytes.len() as u64;
        let dest = destination(name);
        match &mut self.inner {
            CachedBackendKind::File { backend } => {
                let res = backend.write(len, &bytes, dest.as_str());
                self.ul = self.ul + len;
                res
            },
            CachedBackendKind::Cached { cache, backend, .. } => {
                let ghost es = cache.entries_view();
                proof {
                    cache.lemma_wf_distinct();
                }
                let res = backend.write(len, &bytes, dest.as_str());
                self.ul = self.ul + len;
                cache.insert_file(name, bytes);
                let ghost after_insert = cache.entries_view();
                cache.prune();
                proof {
                    lemma_pruned_from(after_insert, cache.budget_view());
                    cache::lemma_idx_of(es, name@);
                    assert forall|a: int| #![trigger cache.entries_view()[a]]
                        0 <= a < cache.entries_view().len() implies valid_object_name(
                        cache.entries_view()[a].0,
                    ) && self.objects().contains_key(
                        destination_spec(cache.entries_view()[a].0),
                    ) && self.objects()[destination_spec(cache.entries_view()[a].0)]
                        == cache.entries_view()[a].1 by {
                        let j = choose|j: int|
                            0 <= j < after_insert.len() && after_insert[j]
                                == cache.entries_view()[a];
                        if j < after_insert.len() - 1 {
                            let rk = cache::remove_key(es, name@);
                            assert(after_insert[j] == rk[j]);
                            if cache::idx_of(es, name@) >= 0 {
                                let i = cache::idx_of(es, name@);
                                if j < i {
                                    assert(rk[j] == es[j]);
                                } else {
                                    assert(rk[j] == es[j + 1]);
                                }
                            }
                            assert(valid_object_name(cache.entries_view()[a].0));
                            assert(cache.entries_view()[a].0 != name@ ==> destination_spec(
                                cache.entries_view()[a].0,
                            ) != key) by {
                                if cache.entries_view()[a].0 != name@ && destination_spec(
                                    cache.entries_view()[a].0,
                                ) == key {
                                    lemma_destination_injective(
                                        cache.entries_view()[a].0,
                                        name@,
                                    );
                                }
                            }
                            assert(cache.entries_view()[a].0 != name@) by {
                                assert(kvstore::distinct_keys(es));
                                if cache::idx_of(es, name@) >= 0 {
                                    let i = cache::idx_of(es, name@);
                                    assert(es[i].0 == name@);
                                    if j < i {
                                        assert(rk[j] == es[j]);
                                        assert(es[j].0 != es[i].0);
                                    } else {
                                        assert(rk[j] == es[j + 1]);
                                        assert(es[i].0 != es[j + 1].0);
                                    }
                                } else {
                                    assert(rk[j] == es[j]);
                                    assert(es[j].0 != name@);
                                }
                            }
                        } else {
                            assert(after_insert[j] == (name@, fh@));
                        }
                    }
                }
                res
            },
            CachedBackendKind::Memory { backend } => {
                let res = backend.write(len, &bytes, dest.as_str());
                self.ul = self.ul + len;
                res
            },
        }
    }

    /// Delete the object under the given flat name, evicting any cached
    /// copy first; a missing object is not an error.
    pub fn remove(&mut self, name: &str) -> (r: Result<(), Error>)
        requires
            old(self).wf(),
            valid_object_name(name@),
        ensures
            remove_post(*old(self), *final(self), name@, r),
    {
        let ghost key = destination_spec(name@);
        let dest = destination(name);
        match &mut self.inner {
            CachedBackendKind::File { backend } => {
                proof {
                    cache::lemma_idx_of(Seq::<(Seq<char>, Seq<u8>)>::empty(), name@);
                }
                backend.remove(dest.as_str())
            },
            CachedBackendKind::Cached { cache, backend, .. } => {
                let ghost es = cache.entries_view();
                cache.evict(name);
                let res = backend.remove(dest.as_str());
                proof {
                    cache::lemma_idx_of(es, name@);
                    assert forall|a: int| #![trigger cache.entries_view()[a]]
                        0 <= a < cache.entries_view().len() implies valid_object_name(
                        cache.entries_view()[a].0,
                    ) && self.objects().contains_key(
                        destination_spec(cache.entries_view()[a].0),
                    ) && self.objects()[destination_spec(cache.entries_view()[a].0)]
                        == cache.entries_view()[a].1 by {
                        let rk = cache::remove_key(es, name@);
                        if cache::idx_of(es, name@) >= 0 {
                            let i = cache::idx_of(es, name@);
                            if a < i {
                                assert(rk[a] == es[a]);
                            } else {
                                assert(rk[a] == es[a + 1]);
                            }
                        } else {
                            assert(rk[a] == es[a]);
                        }
                        cache::lemma_idx_of(cache.entries_view(), name@);
                        assert(cache.entries_view()[a].0 != name@);
                        if destination_spec(cache.entries_view()[a].0) == key {
                            lemma_destination_injective(cache.entries_view()[a].0, name@);
                        }
                    }
                }
                res
            },
            CachedBackendKind::Memory { backend } => {
                proof {
                    cache::lemma_idx_of(Seq::<(Seq<char>, Seq<u8>)>::empty(), name@);
                }
                backend.remove(dest.as_str())
            },
        }
    }

    /// List the committed objects under the given key prefix.
    pub fn list(&self, which: &str) -> (r: Result<Vec<(String, u64)>, Error>)
        requires
            self.wf(),
        ensures
            match r {
                Ok(v) => listing_ok(self.objects(), which@, v@),
                Err(_) => false,
            },
    {
        match &self.inner {
            CachedBackendKind::File { backend } => backend.list(which),
            CachedBackendKind::Cached { backend, .. } => backend.list(which),
            CachedBackendKind::Memory { backend } => backend.list(which),
        }
    }
}

/// A valid identifier makes a valid object name of each kind, with the
/// expected repository key.
pub proof fn lemma_kind_names(id: Seq<char>)
    requires
        hashing::valid_id(id),
    ensures
        valid_object_name(pack_name(id)),
        valid_object_name(index_name(id)),
        valid_object_name(snapshot_name(id)),
        destination_spec(pack_name(id)) == seq!['p', 'a', 'c', 'k', 's', '/'] + pack_name(id),
        destination_spec(index_name(id)) == seq!['i', 'n', 'd', 'e', 'x', 'e', 's', '/']
            + index_name(id),
        destination_spec(snapshot_name(id)) == seq![
            's',
            'n',
            'a',
            'p',
            's',
            'h',
            'o',
            't',
            's',
            '/',
        ] + snapshot_name(id),
{
    assert(pack_name(id).skip(id.len() as int) =~= pack_suffix());
    assert(index_name(id).skip(id.len() as int) =~= index_suffix());
    assert(snapshot_name(id).skip(id.len() as int) =~= snapshot_suffix());
    assert(pack_name(id).last() == 'k');
    assert(index_name(id).last() == 'x');
    assert(snapshot_name(id).last() == 't');
    if strutil::has_suffix(index_name(id), pack_suffix()) {
        assert(index_name(id).last() == 'k');
    }
    if strutil::has_suffix(snapshot_name(id), pack_suffix()) {
        assert(snapshot_name(id).last() == 'k');
    }
    if strutil::has_suffix(snapshot_name(id), index_suffix()) {
        assert(snapshot_name(id).last() == 'x');
    }
}

impl<B: Backend> CachedBackend<B> {
    /// List the repository's index objects.
    pub fn list_indexes(&self) -> (r: Result<Vec<(String, u64)>, Error>)
        requires
            self.wf(),
        ensures
            match r {
                Ok(v) => listing_ok(
                    self.objects(),
                    seq!['i', 'n', 'd', 'e', 'x', 'e', 's', '/'],
                    v@,
                ),
                Err(_) => false,
            },
    {
        proof {
            reveal_strlit("indexes/");
            assert("indexes/"@ =~= seq!['i', 'n', 'd', 'e', 'x', 'e', 's', '/']);
        }
        self.list("indexes/")
    }

    /// List the repository's snapshot objects.
    pub fn list_snapshots(&self) -> (r: Result<Vec<(String, u64)>, Error>)
        requires
            self.wf(),
        ensures
            match r {
                Ok(v) => listing_ok(
                    self.objects(),
                    seq!['s', 'n', 'a', 'p', 's', 'h', 'o', 't', 's', '/'],
                    v@,
                ),
                Err(_) => false,
            },
    {
        proof {
            reveal_strlit("snapshots/");
            assert("snapshots/"@ =~= seq!['s', 'n', 'a', 'p', 's', 'h', 'o', 't', 's', '/']);
        }
        self.list("snapshots/")
    }

    /// List the repository's pack objects.
    pub fn list_packs(&self) -> (r: Result<Vec<(String, u64)>, Error>)
        requires
            self.wf(),
        ensures
            match r {
                Ok(v) => listing_ok(self.objects(), seq!['p', 'a', 'c', 'k', 's', '/'], v@),
                Err(_) => false,
            },
    {
        proof {
            reveal_strlit("packs/");
            assert("packs/"@ =~= seq!['p', 'a', 'c', 'k', 's', '/']);
        }
        self.list("packs/")
    }

    /// Read the pack with the given ID.
    pub fn read_pack(&mut self, id: &ObjectId) -> (r: Result<Cursor, Error>)
        requires
            old(self).wf(),
            id.wf(),
            old(self).downloaded() + obj_len(
                old(self).objects(),
                destination_spec(pack_name(id@)),
            ) <= u64::MAX,
        ensures
            read_post(*old(self), *final(self), pack_name(id@), r),
    {
        proof {
            lemma_kind_names(id@);
            reveal_strlit(".pack");
            assert(".pack"@ =~= pack_suffix());
        }
        let base32 = id.to_string();
        let pack_path = strutil::concat_strs(base32.as_str(), ".pack");
        proof {
            assert(pack_path@ =~= pack_name(id@));
        }
        self.read(pack_path.as_str())
    }

    /// Read the index with the given ID.
    pub fn read_index(&mut self, id: &ObjectId) -> (r: Result<Cursor, Error>)
        requires
            old(self).wf(),
            id.wf(),
            old(self).downloaded() + obj_len(
                old(self).objects(),
                destination_spec(index_name(id@)),
            ) <= u64::MAX,
        ensures
            read_post(*old(self), *final(self), index_name(id@), r),
    {
        proof {
            lemma_kind_names(id@);
            reveal_strlit(".index");
            assert(".index"@ =~= index_suffix());
        }
        let base32 = id.to_string();
        let index_path = strutil::concat_strs(base32.as_str(), ".index");
        proof {
            assert(index_path@ =~= index_name(id@));
        }
        self.read(index_path.as_str())
    }

    /// Read the snapshot with the given ID.
    pub fn read_snapshot(&mut self, id: &ObjectId) -> (r: Result<Cursor, Error>)
        requires
            old(self).wf(),
            id.wf(),
            old(self).downloaded() + obj_len(
                old(self).objects(),
                destination_spec(snapshot_name(id@)),
            ) <= u64::MAX,
        ensures
            read_post(*old(self), *final(self), snapshot_name(id@), r),
    {
        proof {
            lemma_kind_names(id@);
            reveal_strlit(".snapshot");
            assert(".snapshot"@ =~= snapshot_suffix());
        }
        let base32 = id.to_string();
        let snapshot_path = strutil::concat_strs(base32.as_str(), ".snapshot");
        proof {
            assert(snapshot_path@ =~= snapshot_name(id@));
        }
        self.read(snapshot_path.as_str())
    }

    /// Delete the pack with the given ID.
    pub fn remove_pack(&mut self, id: &ObjectId) -> (r: Result<(), Error>)
        requires
            old(self).wf(),
            id.wf(),
        ensures
            remove_post(*old(self), *final(self), pack_name(id@), r),
    {
        proof {
            lemma_kind_names(id@);
            reveal_strlit(".pack");
            assert(".pack"@ =~= pack_suffix());
        }
        let base32 = id.to_string();
        let pack_path = strutil::concat_strs(base32.as_str(), ".pack");
        proof {
            assert(pack_path@ =~= pack_name(id@));
        }
        self.remove(pack_path.as_str())
    }

    /// Delete the index with the given ID.
    pub fn remove_index(&mut self, id: &ObjectId) -> (r: Result<(), Error>)
        requires
            old(self).wf(),
            id.wf(),
        ensures
            remove_post(*old(self), *final(self), index_name(id@), r),
    {
        proof {
            lemma_kind_names(id@);
            reveal_strlit(".index");
            assert(".index"@ =~= index_suffix());
        }
        let base32 = id.to_string();
        let index_path = strutil::concat_strs(base32.as_str(), ".index");
        proof {
            assert(index_path@ =~= index_name(id@));
        }
        self.remove(index_path.as_str())
    }

    /// Delete the snapshot with the given ID.
    pub fn remove_snapshot(&mut self, id: &ObjectId) -> (r: Result<(), Error>)
        requires
            old(self).wf(),
            id.wf(),
        ensures
            remove_post(*old(self), *final(self), snapshot_name(id@), r),
    {
        proof {
            lemma_kind_names(id@);
            reveal_strlit(".snapshot");
            assert(".snapshot"@ =~= snapshot_suffix());
        }
        let base32 = id.to_string();
        let snapshot_path = strutil::concat_strs(base32.as_str(), ".snapshot");
        proof {
            assert(snapshot_path@ =~= snapshot_name(id@));
        }
        self.remove(snapshot_path.as_str())
    }
}

/// What a read leaves behind: the store and upload counter unchanged;
/// the handle carries exactly the object's bytes from position zero; the
/// download counter grows by what was physically fetched; and the cache
/// is touched, or fed and pruned, as the shape and behavior dictate.
pub open spec fn read_post<B: Backend>(
    pre: CachedBackend<B>,
    post: CachedBackend<B>,
    name: Seq<char>,
    r: Result<Cursor, Error>,
) -> bool {
    let key = destination_spec(name);
    let hit = pre.is_cached() && pre.behavior_view() == CacheBehavior::Normal
        && cache::has_entry(pre.cache_entries(), name);
    &&& post.wf()
    &&& post.same_shape(pre)
    &&& post.objects() == pre.objects()
    &&& post.uploaded() == pre.uploaded()
    &&& post.downloaded() >= pre.downloaded()
    &&& match r {
        Ok(c) => {
            &&& pre.objects().contains_key(key)
            &&& c.data() == pre.objects()[key]
            &&& c.pos() == 0
            &&& post.downloaded() == pre.downloaded() + if hit || pre.is_memory() {
                0int
            } else {
                pre.objects()[key].len() as int
            }
            &&& post.cache_entries() == if !pre.is_cached() {
                pre.cache_entries()
            } else if hit {
                pre.cache_entries().remove(cache::idx_of(pre.cache_entries(), name)).push(
                    (name, pre.objects()[key]),
                )
            } else {
                cache::pruned(
                    cache::remove_key(pre.cache_entries(), name).push((name, pre.objects()[key])),
                    pre.cache_budget(),
                )
            }
        },
        Err(e) => {
            &&& e == Error::NotFound
            &&& !pre.objects().contains_key(key)
            &&& post.downloaded() == pre.downloaded()
            &&& post.cache_entries() == pre.cache_entries()
        },
    }
}

/// What a removal leaves behind: the object gone from the store, any
/// cached copy evicted, and the counters untouched.
pub open spec fn remove_post<B: Backend>(
    pre: CachedBackend<B>,
    post: CachedBackend<B>,
    name: Seq<char>,
    r: Result<(), Error>,
) -> bool {
    &&& post.wf()
    &&& post.same_shape(pre)
    &&& r is Ok
    &&& post.objects() == pre.objects().remove(destination_spec(name))
    &&& post.uploaded() == pre.uploaded()
    &&& post.downloaded() == pre.downloaded()
    &&& post.cache_entries() == cache::remove_key(pre.cache_entries(), name)
    &&& !cache::has_entry(post.cache_entries(), name)
}

/// For all objects written via `write`, a subsequent read of the same
/// name yields byte-identical content: the write commits exactly the
/// given bytes under the name's repository key, and a read hands back
/// the bytes under that key.
pub proof fn lemma_write_read_roundtrip(
    objects: Map<Seq<char>, Seq<u8>>,
    name: Seq<char>,
    bytes: Seq<u8>,
)
    requires
        valid_object_name(name),
    ensures
        objects.insert(destination_spec(name), bytes).contains_key(destination_spec(name)),
        objects.insert(destination_spec(name), bytes)[destination_spec(name)] == bytes,
{
}

/// A removal followed by a read of the same name yields `NotFound`: the
/// removal leaves the name's repository key absent, and a read fails
/// with `NotFound` exactly on absent keys.
pub proof fn lemma_remove_read_not_found(objects: Map<Seq<char>, Seq<u8>>, name: Seq<char>)
    requires
        valid_object_name(name),
    ensures
        !objects.remove(destination_spec(name)).contains_key(destination_spec(name)),
{
}

} // verus!
