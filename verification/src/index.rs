//! Repository indexes: what blobs live in what packs, and the protocol
//! that rebuilds the index from the packs currently present — a new
//! index covering every pack is durably written before the indexes it
//! supersedes are retired, so the repository never lacks a valid index.

use vstd::prelude::*;

use crate::backend::{
    self, destination_spec, index_name, obj_len, read_post, Backend, CachedBackend, SeekableRead,
    TempFile,
};
use crate::error::Error;
use crate::hashing::{valid_id, ObjectId};
use crate::strutil;
use crate::tree::ids_view;

verus! {

/// A pack's identifier together with the blobs its manifest lists.
pub struct PackMetadata {
    pub id: ObjectId,
    pub manifest: Vec<ObjectId>,
}

/// The mathematical value of [`PackMetadata`].
pub struct PackMetadataV {
    pub id: Seq<char>,
    pub manifest: Seq<Seq<char>>,
}

impl View for PackMetadata {
    type V = PackMetadataV;

    open spec fn view(&self) -> PackMetadataV {
        PackMetadataV { id: self.id@, manifest: ids_view(self.manifest@) }
    }
}

/// The values of a run of pack records.
pub open spec fn packs_view(s: Seq<PackMetadata>) -> Seq<PackMetadataV> {
    s.map_values(|p: PackMetadata| p@)
}

/// An index object: the packs it covers and the indexes it supersedes.
pub struct Index {
    pub supersedes: Vec<ObjectId>,
    pub packs: Vec<PackMetadata>,
}

/// The mathematical value of [`Index`].
pub struct IndexV {
    pub supersedes: Seq<Seq<char>>,
    pub packs: Seq<PackMetadataV>,
}

impl View for Index {
    type V = IndexV;

    open spec fn view(&self) -> IndexV {
        IndexV { supersedes: ids_view(self.supersedes@), packs: packs_view(self.packs@) }
    }
}

/// Every identifier an index holds is well-formed.
pub open spec fn index_wf(v: IndexV) -> bool {
    &&& forall|i: int| 0 <= i < v.supersedes.len() ==> valid_id(#[trigger] v.supersedes[i])
    &&& forall|i: int|
        0 <= i < v.packs.len() ==> valid_id(#[trigger] v.packs[i].id) && forall|j: int|
            0 <= j < v.packs[i].manifest.len() ==> valid_id(#[trigger] v.packs[i].manifest[j])
}

/// An ASCII rendering, byte for character.
pub open spec fn ascii_bytes(s: Seq<char>) -> Seq<u8> {
    s.map_values(|c: char| c as u8)
}

/// One identifier on the wire: its length, then its ASCII bytes.
pub open spec fn enc_id(id: Seq<char>) -> Seq<u8> {
    vstd::bytes::spec_u64_to_le_bytes(id.len() as u64) + ascii_bytes(id)
}

/// A run of identifiers on the wire.
pub open spec fn enc_ids(ids: Seq<Seq<char>>) -> Seq<u8>
    decreases ids.len(),
{
    if ids.len() == 0 {
        Seq::empty()
    } else {
        enc_ids(ids.drop_last()) + enc_id(ids.last())
    }
}

/// A counted list of identifiers on the wire.
pub open spec fn enc_id_list(ids: Seq<Seq<char>>) -> Seq<u8> {
    vstd::bytes::spec_u64_to_le_bytes(ids.len() as u64) + enc_ids(ids)
}

/// A run of pack records on the wire.
pub open spec fn enc_packs(ps: Seq<PackMetadataV>) -> Seq<u8>
    decreases ps.len(),
{
    if ps.len() == 0 {
        Seq::empty()
    } else {
        enc_packs(ps.drop_last()) + enc_id(ps.last().id) + enc_id_list(ps.last().manifest)
    }
}

/// An index object's serialized form.
pub open spec fn spec_encode_index(v: IndexV) -> Seq<u8> {
    enc_id_list(v.supersedes) + vstd::bytes::spec_u64_to_le_bytes(v.packs.len() as u64)
        + enc_packs(v.packs)
}

fn append_u64(out: &mut Vec<u8>, x: u64)
    ensures
        final(out)@ == old(out)@ + vstd::bytes::spec_u64_to_le_bytes(x),
{
    let mut b = vstd::bytes::u64_to_le_bytes(x);
    out.append(&mut b);
}

fn append_id(out: &mut Vec<u8>, id: &ObjectId)
    requires
        id.wf(),
    ensures
        final(out)@ == old(out)@ + enc_id(id@),
{
    let s = id.as_str();
    let mut bytes = s.as_bytes_vec();
    proof {
        vstd::string::is_ascii_spec_bytes(s);
        assert(bytes@ =~= ascii_bytes(id@)) by {
            assert(forall|i: int|
                0 <= i < id@.len() ==> ascii_bytes(id@)[i] == #[trigger] id@[i] as u8);
        }
    }
    append_u64(out, bytes.len() as u64);
    out.append(&mut bytes);
}

fn append_id_list(out: &mut Vec<u8>, ids: &Vec<ObjectId>)
    requires
        forall|i: int| 0 <= i < ids@.len() ==> #[trigger] ids@[i].wf(),
    ensures
        final(out)@ == old(out)@ + enc_id_list(ids_view(ids@)),
{
    let n = ids.len();
    append_u64(out, n as u64);
    proof {
        assert(ids_view(ids@).len() == n);
    }
    let mut i: usize = 0;
    while i < n
        invariant
            n == ids@.len(),
            i <= n,
            forall|k: int| 0 <= k < ids@.len() ==> #[trigger] ids@[k].wf(),
            out@ == old(out)@ + vstd::bytes::spec_u64_to_le_bytes(n as u64) + enc_ids(
                ids_view(ids@).take(i as int),
            ),
        decreases n - i,
    {
        append_id(out, &ids[i]);
        proof {
            let iv = ids_view(ids@);
            assert(iv.take(i as int + 1).drop_last() =~= iv.take(i as int));
            assert(iv.take(i as int + 1).last() == iv[i as int]);
            assert(iv[i as int] == ids@[i as int]@);
        }
        i += 1;
    }
    proof {
        assert(ids_view(ids@).take(n as int) =~= ids_view(ids@));
    }
}

/// Serialize an index object.
pub fn encode_index(idx: &Index) -> (r: Vec<u8>)
    requires
        index_wf(idx@),
    ensures
        r@ == spec_encode_index(idx@),
{
    let mut out: Vec<u8> = Vec::new();
    proof {
        assert forall|i: int|
            0 <= i < idx.supersedes@.len() implies #[trigger] idx.supersedes@[i].wf() by {
            assert(idx@.supersedes[i] == idx.supersedes@[i]@);
            assert(valid_id(idx@.supersedes[i]));
        }
        assert(out@ =~= Seq::<u8>::empty());
        assert(Seq::<u8>::empty() + enc_id_list(ids_view(idx.supersedes@)) =~= enc_id_list(
            ids_view(idx.supersedes@),
        ));
    }
    append_id_list(&mut out, &idx.supersedes);
    let n = idx.packs.len();
    append_u64(&mut out, n as u64);
    proof {
        assert(packs_view(idx.packs@).len() == n);
    }
    let ghost header = enc_id_list(ids_view(idx.supersedes@)) + vstd::bytes::spec_u64_to_le_bytes(
        n as u64,
    );
    let mut i: usize = 0;
    while i < n
        invariant
            n == idx.packs@.len(),
            index_wf(idx@),
            header == enc_id_list(ids_view(idx.supersedes@))
                + vstd::bytes::spec_u64_to_le_bytes(n as u64),
            i <= n,
            out@ == header + enc_packs(packs_view(idx.packs@).take(i as int)),
        decreases n - i,
    {
        let p = &idx.packs[i];
        proof {
            assert(packs_view(idx.packs@)[i as int] == idx.packs@[i as int]@);
            assert(idx@.packs[i as int] == idx.packs@[i as int]@);
            assert(valid_id(idx@.packs[i as int].id));
            assert(p.id.wf());
            assert forall|j: int|
                0 <= j < p.manifest@.len() implies #[trigger] p.manifest@[j].wf() by {
                assert(idx@.packs[i as int].manifest[j] == p.manifest@[j]@);
            }
        }
        append_id(&mut out, &p.id);
        append_id_list(&mut out, &p.manifest);
        proof {
            let pv = packs_view(idx.packs@);
            assert(pv.take(i as int + 1).drop_last() =~= pv.take(i as int));
            assert(pv.take(i as int + 1).last() == pv[i as int]);
            assert(out@ =~= header + enc_packs(pv.take(i as int + 1)));
        }
        i += 1;
    }
    proof {
        assert(packs_view(idx.packs@).take(n as int) =~= packs_view(idx.packs@));
    }
    out
}

fn read_u64(bytes: &Vec<u8>, pos: usize) -> (r: Result<(u64, usize), Error>)
    ensures
        match r {
            Ok((v, p2)) => p2 == pos + 8 && p2 <= bytes@.len()
                && vstd::bytes::spec_u64_to_le_bytes(v) == bytes@.subrange(pos as int, p2 as int),
            Err(e) => e == Error::Integrity,
        },
{
    let blen = bytes.len();
    if blen < 8 || pos > blen - 8 {
        return Err(Error::Integrity);
    }
    let mut window: Vec<u8> = Vec::new();
    let mut k: usize = 0;
    while k < 8
        invariant
            blen == bytes@.len(),
            pos + 8 <= blen,
            k <= 8,
            window@ == bytes@.subrange(pos as int, pos + k),
        decreases 8 - k,
    {
        window.push(bytes[pos + k]);
        proof {
            assert(window@ =~= bytes@.subrange(pos as int, pos + k + 1));
        }
        k += 1;
    }
    let v = vstd::bytes::u64_from_le_bytes(window.as_slice());
    proof {
        vstd::bytes::lemma_auto_spec_u64_to_from_le_bytes();
    }
    Ok((v, pos + 8))
}

fn read_id(bytes: &Vec<u8>, pos: usize) -> (r: Result<(ObjectId, usize), Error>)
    ensures
        match r {
            Ok((id, p2)) => pos <= p2 <= bytes@.len() && id.wf() && enc_id(id@)
                == bytes@.subrange(pos as int, p2 as int),
            Err(e) => e == Error::Integrity,
        },
{
    let (len, mut at) = match read_u64(bytes, pos) {
        Ok(x) => x,
        Err(e) => {
            return Err(e);
        },
    };
    let blen = bytes.len();
    if at > blen || len > (blen - at) as u64 {
        return Err(Error::Integrity);
    }
    let count = len as usize;
    let stop = at + count;
    let mut s = String::new();
    let mut k: usize = 0;
    while k < count
        invariant
            blen == bytes@.len(),
            at + count <= blen,
            k <= count,
            s@.len() == k,
            vstd::utf8::is_ascii_chars(s@),
            ascii_bytes(s@) == bytes@.subrange(at as int, at + k),
        decreases count - k,
    {
        let b = bytes[at + k];
        if b >= 128 {
            return Err(Error::Integrity);
        }
        let c = b as char;
        strutil::push_char(&mut s, c);
        proof {
            assert(c as u32 == b as u32);
            assert(c as u8 == b);
            assert(vstd::utf8::is_ascii_chars(s@)) by {
                assert(forall|i: int| 0 <= i < s@.len() - 1 ==> s@[i] == s@.drop_last()[i]);
            }
            assert(ascii_bytes(s@) =~= bytes@.subrange(at as int, at + k + 1)) by {
                assert(forall|i: int|
                    0 <= i < s@.len() ==> ascii_bytes(s@)[i] == #[trigger] s@[i] as u8);
                assert(forall|i: int| 0 <= i < s@.len() - 1 ==> s@[i] == s@.drop_last()[i]);
                assert(s@.last() == c);
            }
        }
        k += 1;
    }
    let id = match ObjectId::parse(s.as_str()) {
        Some(id) => id,
        None => {
            return Err(Error::Integrity);
        },
    };
    proof {
        assert(enc_id(id@) =~= bytes@.subrange(pos as int, stop as int)) by {
            assert(vstd::bytes::spec_u64_to_le_bytes(len) == bytes@.subrange(pos as int, at as int));
            assert(id@.len() == count);
            assert(ascii_bytes(id@) == bytes@.subrange(at as int, stop as int));
        }
    }
    Ok((id, stop))
}

fn read_id_list(bytes: &Vec<u8>, pos: usize) -> (r: Result<(Vec<ObjectId>, usize), Error>)
    ensures
        match r {
            Ok((ids, p2)) => pos <= p2 <= bytes@.len() && (forall|i: int|
                0 <= i < ids@.len() ==> #[trigger] ids@[i].wf()) && enc_id_list(ids_view(ids@))
                == bytes@.subrange(pos as int, p2 as int),
            Err(e) => e == Error::Integrity,
        },
{
    let (count, start) = match read_u64(bytes, pos) {
        Ok(x) => x,
        Err(e) => {
            return Err(e);
        },
    };
    let mut ids: Vec<ObjectId> = Vec::new();
    let mut at = start;
    let mut k: u64 = 0;
    proof {
        assert(ids_view(ids@) =~= Seq::<Seq<char>>::empty());
    }
    while k < count
        invariant
            pos + 8 == start <= bytes@.len(),
            start <= at <= bytes@.len(),
            k <= count,
            ids@.len() == k,
            vstd::bytes::spec_u64_to_le_bytes(count) == bytes@.subrange(pos as int, start as int),
            forall|i: int| 0 <= i < ids@.len() ==> #[trigger] ids@[i].wf(),
            enc_ids(ids_view(ids@)) == bytes@.subrange(start as int, at as int),
        decreases count - k,
    {
        let (id, next) = match read_id(bytes, at) {
            Ok(x) => x,
            Err(e) => {
                return Err(e);
            },
        };
        if next == at {
            // an identifier occupies at least its length field
            return Err(Error::Integrity);
        }
        let ghost pre = ids_view(ids@);
        ids.push(id);
        proof {
            let iv = ids_view(ids@);
            assert(iv =~= pre.push(id@)) by {
                assert(forall|i: int| 0 <= i < pre.len() ==> iv[i] == #[trigger] ids@[i]@);
                assert(forall|i: int| 0 <= i < pre.len() ==> pre[i] == #[trigger] ids@[i]@);
                assert(iv.last() == id@);
            }
            assert(iv.drop_last() =~= pre);
            assert(bytes@.subrange(start as int, at as int) + bytes@.subrange(
                at as int,
                next as int,
            ) =~= bytes@.subrange(start as int, next as int));
            assert(enc_ids(iv) == bytes@.subrange(start as int, next as int));
        }
        at = next;
        k += 1;
    }
    proof {
        assert(ids_view(ids@).len() == count);
        assert(bytes@.subrange(pos as int, start as int) + bytes@.subrange(
            start as int,
            at as int,
        ) =~= bytes@.subrange(pos as int, at as int));
    }
    Ok((ids, at))
}

/// Parse an index object. A successful parse is sound: the bytes are
/// exactly the serialization of the returned index.
pub fn decode_index(bytes: &Vec<u8>) -> (r: Result<Index, Error>)
    ensures
        match r {
            Ok(idx) => index_wf(idx@) && spec_encode_index(idx@) == bytes@,
            Err(e) => e == Error::Integrity,
        },
{
    let blen = bytes.len();
    let (supersedes, after_sup) = match read_id_list(bytes, 0) {
        Ok(x) => x,
        Err(e) => {
            return Err(e);
        },
    };
    let (count, start) = match read_u64(bytes, after_sup) {
        Ok(x) => x,
        Err(e) => {
            return Err(e);
        },
    };
    let mut packs: Vec<PackMetadata> = Vec::new();
    let mut at = start;
    let mut k: u64 = 0;
    proof {
        assert(packs_view(packs@) =~= Seq::<PackMetadataV>::empty());
    }
    while k < count
        invariant
            blen == bytes@.len(),
            after_sup + 8 == start <= blen,
            start <= at <= blen,
            k <= count,
            packs@.len() == k,
            forall|i: int| 0 <= i < supersedes@.len() ==> #[trigger] supersedes@[i].wf(),
            enc_id_list(ids_view(supersedes@)) == bytes@.subrange(0, after_sup as int),
            vstd::bytes::spec_u64_to_le_bytes(count) == bytes@.subrange(
                after_sup as int,
                start as int,
            ),
            forall|i: int| #![trigger packs@[i]]
                0 <= i < packs@.len() ==> packs@[i].id.wf() && forall|j: int|
                    0 <= j < packs@[i].manifest@.len()
                        ==> (#[trigger] packs@[i].manifest@[j]).wf(),
            enc_packs(packs_view(packs@)) == bytes@.subrange(start as int, at as int),
        decreases count - k,
    {
        let (id, mid) = match read_id(bytes, at) {
            Ok(x) => x,
            Err(e) => {
                return Err(e);
            },
        };
        let (manifest, next) = match read_id_list(bytes, mid) {
            Ok(x) => x,
            Err(e) => {
                return Err(e);
            },
        };
        if next == at {
            return Err(Error::Integrity);
        }
        let ghost pre = packs_view(packs@);
        let ghost pre_exec = packs@;
        let entry = PackMetadata { id, manifest };
        proof {
            assert(entry@.id == entry.id@);
            assert(forall|j: int|
                0 <= j < entry.manifest@.len() ==> entry@.manifest[j] == #[trigger] entry.manifest@[
                    j
                ]@);
        }
        packs.push(entry);
        proof {
            let pv = packs_view(packs@);
            assert(pv =~= pre.push(packs@.last()@)) by {
                assert(forall|i: int| 0 <= i < pre.len() ==> pv[i] == #[trigger] packs@[i]@);
                assert(forall|i: int| 0 <= i < pre.len() ==> pre[i] == #[trigger] packs@[i]@);
                assert(pv.last() == packs@.last()@);
            }
            assert(pv.drop_last() =~= pre);
            assert forall|i: int| #![trigger packs@[i]]
                0 <= i < packs@.len() implies packs@[i].id.wf() && (forall|j: int|
                0 <= j < packs@[i].manifest@.len()
                    ==> (#[trigger] packs@[i].manifest@[j]).wf()) by {
                if i < pre_exec.len() {
                    assert(packs@[i] == pre_exec[i]);
                    assert(pre_exec[i].id.wf());
                } else {
                    assert(packs@[i] == packs@.last());
                }
            }
            assert(bytes@.subrange(start as int, at as int) + bytes@.subrange(
                at as int,
                mid as int,
            ) + bytes@.subrange(mid as int, next as int) =~= bytes@.subrange(
                start as int,
                next as int,
            ));
            assert(enc_packs(pv) == bytes@.subrange(start as int, next as int));
        }
        at = next;
        k += 1;
    }
    if at != blen {
        return Err(Error::Integrity);
    }
    let idx = Index { supersedes, packs };
    proof {
        assert(idx.packs@ == packs@);
        assert(idx.supersedes@ == supersedes@);
        assert(packs_view(idx.packs@).len() == count);
        assert(index_wf(idx@)) by {
            assert forall|i: int|
                0 <= i < idx@.supersedes.len() implies valid_id(
                #[trigger] idx@.supersedes[i],
            ) by {
                assert(idx@.supersedes[i] == supersedes@[i]@);
                assert(supersedes@[i].wf());
            }
            assert forall|i: int|
                0 <= i < idx@.packs.len() implies valid_id(#[trigger] idx@.packs[i].id)
                    && forall|j: int|
                    0 <= j < idx@.packs[i].manifest.len() ==> valid_id(
                        #[trigger] idx@.packs[i].manifest[j],
                    ) by {
                assert(idx@.packs[i] == idx.packs@[i]@);
                assert(idx.packs@[i] == packs@[i]);
                assert(packs@[i].id.wf());
                assert forall|j: int|
                    0 <= j < idx@.packs[i].manifest.len() implies valid_id(
                    #[trigger] idx@.packs[i].manifest[j],
                ) by {
                    assert(idx@.packs[i].manifest[j] == packs@[i].manifest@[j]@);
                    assert(packs@[i].manifest@[j].wf());
                }
            }
        }
        assert(spec_encode_index(idx@) =~= bytes@) by {
            assert(bytes@.subrange(0, after_sup as int) + bytes@.subrange(
                after_sup as int,
                start as int,
            ) + bytes@.subrange(start as int, blen as int) =~= bytes@);
        }
    }
    Ok(idx)
}

/// Whether the tail of an object's bytes carries the given manifest:
/// the last eight bytes give the manifest's length, and the manifest
/// stands just before them.
pub open spec fn has_manifest(bytes: Seq<u8>, ids: Seq<Seq<char>>) -> bool {
    &&& bytes.len() >= 8
    &&& {
        let mlen = vstd::bytes::spec_u64_from_le_bytes(
            bytes.subrange(bytes.len() - 8, bytes.len() as int),
        ) as int;
        &&& 8 + mlen <= bytes.len()
        &&& enc_id_list(ids) == bytes.subrange(bytes.len() - 8 - mlen, bytes.len() - 8)
    }
}

/// Seal a pack: append the manifest and its length to the payload, so
/// the manifest can later be read from the tail of the object.
pub fn seal_pack(payload: Vec<u8>, manifest: &Vec<ObjectId>) -> (r: Vec<u8>)
    requires
        forall|i: int| 0 <= i < manifest@.len() ==> #[trigger] manifest@[i].wf(),
    ensures
        has_manifest(r@, ids_view(manifest@)),
        r@ == payload@ + enc_id_list(ids_view(manifest@)) + vstd::bytes::spec_u64_to_le_bytes(
            enc_id_list(ids_view(manifest@)).len() as u64,
        ),
{
    let mut man_bytes: Vec<u8> = Vec::new();
    proof {
        assert(man_bytes@ =~= Seq::<u8>::empty());
    }
    append_id_list(&mut man_bytes, manifest);
    proof {
        assert(Seq::<u8>::empty() + enc_id_list(ids_view(manifest@)) =~= enc_id_list(
            ids_view(manifest@),
        ));
    }
    let mlen = man_bytes.len() as u64;
    let mut out = payload;
    out.append(&mut man_bytes);
    append_u64(&mut out, mlen);
    proof {
        let el = enc_id_list(ids_view(manifest@));
        let whole = out@;
        vstd::bytes::lemma_auto_spec_u64_to_from_le_bytes();
        assert(whole.subrange(whole.len() - 8, whole.len() as int)
            =~= vstd::bytes::spec_u64_to_le_bytes(mlen));
        assert(whole.subrange(whole.len() - 8 - el.len(), whole.len() - 8) =~= el);
    }
    out
}

/// Read the manifest from the tail of a pack object's bytes.
pub fn load_manifest(bytes: &Vec<u8>) -> (r: Result<Vec<ObjectId>, Error>)
    ensures
        match r {
            Ok(m) => (forall|i: int| 0 <= i < m@.len() ==> #[trigger] m@[i].wf()) && has_manifest(
                bytes@,
                ids_view(m@),
            ),
            Err(e) => e == Error::Integrity,
        },
{
    let blen = bytes.len();
    if blen < 8 {
        return Err(Error::Integrity);
    }
    let (mlen, _end) = match read_u64(bytes, blen - 8) {
        Ok(x) => x,
        Err(e) => {
            return Err(e);
        },
    };
    if mlen > (blen - 8) as u64 {
        return Err(Error::Integrity);
    }
    let man_start = blen - 8 - (mlen as usize);
    let (ids, stop) = match read_id_list(bytes, man_start) {
        Ok(x) => x,
        Err(e) => {
            return Err(e);
        },
    };
    if stop != blen - 8 {
        return Err(Error::Integrity);
    }
    proof {
        vstd::bytes::lemma_auto_spec_u64_to_from_le_bytes();
        assert(vstd::bytes::spec_u64_from_le_bytes(bytes@.subrange(blen - 8, blen as int))
            == mlen);
    }
    Ok(ids)
}

/// Read object identifiers off a listing, one per entry, from the stem
/// of each listed key. Fails exactly when some stem is not an
/// identifier.
pub fn ids_from_listing(listing: &Vec<(String, u64)>) -> (r: Result<Vec<ObjectId>, Error>)
    ensures
        match r {
            Ok(v) => v@.len() == listing@.len() && forall|i: int|
                0 <= i < v@.len() ==> (#[trigger] v@[i])@ == backend::stem_spec(listing@[i].0@)
                    && v@[i].wf(),
            Err(e) => e == Error::Integrity && exists|i: int|
                0 <= i < listing@.len() && !valid_id(
                    backend::stem_spec(#[trigger] listing@[i].0@),
                ),
        },
{
    let n = listing.len();
    let mut v: Vec<ObjectId> = Vec::new();
    let mut i: usize = 0;
    while i < n
        invariant
            n == listing@.len(),
            i <= n,
            v@.len() == i,
            forall|j: int|
                0 <= j < i ==> (#[trigger] v@[j])@ == backend::stem_spec(listing@[j].0@)
                    && v@[j].wf(),
        decreases n - i,
    {
        let id = match backend::id_from_path(listing[i].0.as_str()) {
            Ok(id) => id,
            Err(_) => {
                proof {
                    assert(!valid_id(backend::stem_spec(listing@[i as int].0@)));
                }
                return Err(Error::Integrity);
            },
        };
        v.push(id);
        i += 1;
    }
    Ok(v)
}

/// Load one pack's metadata: read the pack object through the facade
/// and parse the manifest from its tail.
pub fn scan_pack<B: Backend>(backend: &mut CachedBackend<B>, id: &ObjectId) -> (r: Result<
    PackMetadata,
    Error,
>)
    requires
        old(backend).wf(),
        id.wf(),
        old(backend).downloaded() + obj_len(
            old(backend).objects(),
            destination_spec(backend::pack_name(id@)),
        ) <= u64::MAX,
    ensures
        final(backend).wf(),
        final(backend).same_shape(*old(backend)),
        final(backend).objects() == old(backend).objects(),
        final(backend).uploaded() == old(backend).uploaded(),
        final(backend).downloaded() >= old(backend).downloaded(),
        ({
            let key = destination_spec(backend::pack_name(id@));
            match r {
                Ok(m) => m.id@ == id@ && old(backend).objects().contains_key(key) && has_manifest(
                    old(backend).objects()[key],
                    ids_view(m.manifest@),
                ),
                Err(Error::NotFound) => !old(backend).objects().contains_key(key),
                Err(Error::Integrity) => old(backend).objects().contains_key(key),
                Err(_) => false,
            }
        }),
{
    let mut cursor = match backend.read_pack(id) {
        Ok(c) => c,
        Err(e) => {
            return Err(e);
        },
    };
    let bytes = cursor.read_to_end();
    proof {
        assert(bytes@ =~= old(backend).objects()[destination_spec(backend::pack_name(id@))]);
    }
    let manifest = match load_manifest(&bytes) {
        Ok(m) => m,
        Err(e) => {
            return Err(e);
        },
    };
    Ok(PackMetadata { id: id.clone_id(), manifest })
}

/// The repository keys of the superseded indexes a live rebuild
/// retires; an identifier equal to the new index's own is kept.
pub open spec fn superseded_keys(sup: Seq<Seq<char>>, new_id: Seq<char>) -> Set<Seq<char>> {
    Set::new(
        |k: Seq<char>|
            exists|i: int|
                0 <= i < sup.len() && sup[i] != new_id && k == destination_spec(
                    index_name(#[trigger] sup[i]),
                ),
    )
}

proof fn lemma_remove_keys_step(
    m: Map<Seq<char>, Seq<u8>>,
    s: Set<Seq<char>>,
    k: Seq<char>,
)
    ensures
        m.remove_keys(s).remove(k) == m.remove_keys(s.insert(k)),
{
    assert(m.remove_keys(s).remove(k) =~= m.remove_keys(s.insert(k)));
}

proof fn lemma_superseded_step(sup: Seq<Seq<char>>, new_id: Seq<char>, i: int)
    requires
        0 <= i < sup.len(),
    ensures
        sup[i] != new_id ==> superseded_keys(sup.take(i + 1), new_id) == superseded_keys(
            sup.take(i),
            new_id,
        ).insert(destination_spec(index_name(sup[i]))),
        sup[i] == new_id ==> superseded_keys(sup.take(i + 1), new_id) == superseded_keys(
            sup.take(i),
            new_id,
        ),
{
    let pre = superseded_keys(sup.take(i), new_id);
    let post = superseded_keys(sup.take(i + 1), new_id);
    if sup[i] != new_id {
        let skey = destination_spec(index_name(sup[i]));
        assert forall|k: Seq<char>| post.contains(k) implies pre.insert(skey).contains(k) by {
            let a = choose|a: int|
                0 <= a < sup.take(i + 1).len() && sup.take(i + 1)[a] != new_id && k
                    == destination_spec(index_name(#[trigger] sup.take(i + 1)[a]));
            if a < i {
                assert(sup.take(i)[a] == sup.take(i + 1)[a]);
            } else {
                assert(sup.take(i + 1)[a] == sup[i]);
            }
        }
        assert forall|k: Seq<char>| pre.insert(skey).contains(k) implies post.contains(k) by {
            if k == skey {
                assert(sup.take(i + 1)[i] == sup[i]);
            } else {
                let a = choose|a: int|
                    0 <= a < sup.take(i).len() && sup.take(i)[a] != new_id && k
                        == destination_spec(index_name(#[trigger] sup.take(i)[a]));
                assert(sup.take(i + 1)[a] == sup.take(i)[a]);
            }
        }
        assert(post =~= pre.insert(skey));
    } else {
        assert forall|k: Seq<char>| post.contains(k) implies pre.contains(k) by {
            let a = choose|a: int|
                0 <= a < sup.take(i + 1).len() && sup.take(i + 1)[a] != new_id && k
                    == destination_spec(index_name(#[trigger] sup.take(i + 1)[a]));
            assert(a < i);
            assert(sup.take(i)[a] == sup.take(i + 1)[a]);
        }
        assert forall|k: Seq<char>| pre.contains(k) implies post.contains(k) by {
            let a = choose|a: int|
                0 <= a < sup.take(i).len() && sup.take(i)[a] != new_id && k == destination_spec(
                    index_name(#[trigger] sup.take(i)[a]),
                );
            assert(sup.take(i + 1)[a] == sup.take(i)[a]);
        }
        assert(post =~= pre);
    }
}

/// Rebuild the repository's index from the packs currently present.
///
/// The indexes now listed become the new index's `supersedes` set, and
/// the given pack records its contents. In a dry run the new index is
/// only constructed. Otherwise it is serialized and durably written
/// first, and only then is every superseded index removed, so at no
/// point does the repository lack an index covering the packs.
/// What a rebuild leaves behind; see [`rebuild_index`].
pub open spec fn rebuild_post<B: Backend>(
    pre: CachedBackend<B>,
    post: CachedBackend<B>,
    new_id: Seq<char>,
    packs: Seq<PackMetadata>,
    dry_run: bool,
    r: Result<Index, Error>,
) -> bool {
    &&& post.wf()
    &&& post.same_shape(pre)
    &&& post.downloaded() == pre.downloaded()
    &&& post.uploaded() >= pre.uploaded()
    &&& match r {
        Ok(idx) => {
            let enc = spec_encode_index(idx@);
            let new_key = destination_spec(index_name(new_id));
            &&& idx@.packs == packs_view(packs)
            &&& index_wf(idx@)
            &&& forall|k: Seq<char>|
                pre.objects().contains_key(k) && strutil::has_prefix(
                    k,
                    seq!['i', 'n', 'd', 'e', 'x', 'e', 's', '/'],
                ) ==> exists|i: int|
                    0 <= i < idx@.supersedes.len() && #[trigger] idx@.supersedes[i]
                        == backend::stem_spec(k)
            &&& if dry_run {
                post.objects() == pre.objects() && post.uploaded() == pre.uploaded()
            } else {
                &&& post.objects() == pre.objects().insert(new_key, enc).remove_keys(
                    superseded_keys(idx@.supersedes, new_id),
                )
                &&& post.objects().contains_key(new_key)
                &&& post.objects()[new_key] == enc
                &&& post.uploaded() == pre.uploaded() + enc.len()
            }
        },
        Err(e) => (e == Error::Integrity || e == Error::Fatal) && post.objects() == pre.objects()
            && post.uploaded() == pre.uploaded(),
    }
}

#[verifier::rlimit(40)]
pub fn rebuild_index<B: Backend>(
    backend: &mut CachedBackend<B>,
    new_index_id: &ObjectId,
    packs: Vec<PackMetadata>,
    dry_run: bool,
) -> (r: Result<Index, Error>)
    requires
        old(backend).wf(),
        new_index_id.wf(),
        forall|i: int| #![trigger packs@[i]]
            0 <= i < packs@.len() ==> packs@[i].id.wf() && forall|j: int|
                0 <= j < packs@[i].manifest@.len() ==> (#[trigger] packs@[i].manifest@[j]).wf(),
    ensures
        rebuild_post(*old(backend), *final(backend), new_index_id@, packs@, dry_run, r),
{
    let listing = match backend.list_indexes() {
        Ok(v) => v,
        Err(e) => {
            return Err(Error::Fatal);
        },
    };
    let supersedes = match ids_from_listing(&listing) {
        Ok(v) => v,
        Err(e) => {
            return Err(e);
        },
    };
    let idx = Index { supersedes, packs };
    proof {
        assert(idx.packs@ == packs@);
        assert(idx.supersedes@ == supersedes@);
        assert(forall|i: int|
            0 <= i < idx.supersedes@.len() ==> (#[trigger] idx.supersedes@[i]).wf());
        assert(forall|i: int| #![trigger idx.packs@[i]]
            0 <= i < idx.packs@.len() ==> idx.packs@[i].id.wf() && forall|j: int|
                0 <= j < idx.packs@[i].manifest@.len()
                    ==> (#[trigger] idx.packs@[i].manifest@[j]).wf());
        assert(index_wf(idx@)) by {
            assert(forall|i: int|
                0 <= i < idx@.supersedes.len() ==> #[trigger] idx@.supersedes[i]
                    == idx.supersedes@[i]@);
            assert(forall|i: int| #![trigger idx@.packs[i]]
                0 <= i < idx@.packs.len() ==> idx@.packs[i] == idx.packs@[i]@);
            assert forall|i: int|
                0 <= i < idx@.packs.len() implies valid_id(#[trigger] idx@.packs[i].id)
                    && forall|j: int|
                    0 <= j < idx@.packs[i].manifest.len() ==> valid_id(
                        #[trigger] idx@.packs[i].manifest[j],
                    ) by {
                assert(idx@.packs[i] == idx.packs@[i]@);
                assert(idx.packs@[i].id.wf());
                assert forall|j: int|
                    0 <= j < idx@.packs[i].manifest.len() implies valid_id(
                    #[trigger] idx@.packs[i].manifest[j],
                ) by {
                    assert(idx@.packs[i].manifest[j] == idx.packs@[i].manifest@[j]@);
                    assert(idx.packs@[i].manifest@[j].wf());
                }
            }
        }
        assert(idx@.packs =~= packs_view(packs@));
        assert forall|k: Seq<char>|
            old(backend).objects().contains_key(k) && strutil::has_prefix(
                k,
                seq!['i', 'n', 'd', 'e', 'x', 'e', 's', '/'],
            ) implies exists|i: int|
                0 <= i < idx@.supersedes.len() && #[trigger] idx@.supersedes[i]
                    == backend::stem_spec(k) by {
            let j = choose|j: int| 0 <= j < listing@.len() && #[trigger] listing@[j].0@ == k;
            assert(idx.supersedes@[j]@ == backend::stem_spec(k));
            assert(idx@.supersedes[j] == idx.supersedes@[j]@);
        }
    }
    if dry_run {
        proof {
            assert(rebuild_post(
                *old(backend),
                *backend,
                new_index_id@,
                packs@,
                dry_run,
                Result::<Index, Error>::Ok(idx),
            ));
        }
        return Ok(idx);
    }
    let enc = encode_index(&idx);
    let enc_len = enc.len() as u64;
    if backend.bytes_uploaded() > u64::MAX - enc_len {
        return Err(Error::Fatal);
    }
    proof {
        backend::lemma_kind_names(new_index_id@);
        reveal_strlit(".index");
        assert(".index"@ =~= backend::index_suffix());
    }
    let base32 = new_index_id.to_string();
    let name = strutil::concat_strs(base32.as_str(), ".index");
    proof {
        assert(name@ =~= index_name(new_index_id@));
    }
    let ghost enc_view = enc@;
    let res = backend.write(name.as_str(), TempFile::new(enc));
    proof {
        assert(res is Ok);
    }
    let ghost new_key = destination_spec(index_name(new_index_id@));
    let ghost base = backend.objects();
    let n = idx.supersedes.len();
    let mut i: usize = 0;
    proof {
        assert(base.remove_keys(superseded_keys(idx@.supersedes.take(0), new_index_id@))
            =~= base) by {
            assert(superseded_keys(idx@.supersedes.take(0), new_index_id@)
                =~= Set::<Seq<char>>::empty());
        }
    }
    while i < n
        invariant
            n == idx.supersedes@.len(),
            n == idx@.supersedes.len(),
            i <= n,
            backend.wf(),
            backend.same_shape(*old(backend)),
            index_wf(idx@),
            forall|a: int|
                0 <= a < idx@.supersedes.len() ==> #[trigger] idx@.supersedes[a]
                    == idx.supersedes@[a]@,
            forall|a: int| 0 <= a < idx.supersedes@.len() ==> (#[trigger] idx.supersedes@[a]).wf(),
            new_index_id.wf(),
            new_key == destination_spec(index_name(new_index_id@)),
            backend.downloaded() == old(backend).downloaded(),
            backend.uploaded() == old(backend).uploaded() + enc_view.len(),
            backend.objects() == base.remove_keys(
                superseded_keys(idx@.supersedes.take(i as int), new_index_id@),
            ),
        decreases n - i,
    {
        let ghost pre_set = superseded_keys(idx@.supersedes.take(i as int), new_index_id@);
        proof {
            lemma_superseded_step(idx@.supersedes, new_index_id@, i as int);
        }
        if !idx.supersedes[i].eq_id(new_index_id) {
            let res = backend.remove_index(&idx.supersedes[i]);
            proof {
                let sid = idx@.supersedes[i as int];
                let skey = destination_spec(index_name(sid));
                assert(backend.objects() == base.remove_keys(pre_set).remove(skey));
                lemma_remove_keys_step(base, pre_set, skey);
            }
        }
        i += 1;
    }
    proof {
        assert(idx@.supersedes.take(n as int) =~= idx@.supersedes);
        let final_set = superseded_keys(idx@.supersedes, new_index_id@);
        assert(!final_set.contains(new_key)) by {
            if final_set.contains(new_key) {
                let a = choose|a: int|
                    0 <= a < idx@.supersedes.len() && idx@.supersedes[a] != new_index_id@
                        && new_key == destination_spec(index_name(#[trigger] idx@.supersedes[a]));
                lemma_index_name_injective(idx@.supersedes[a], new_index_id@);
            }
        }
        assert(backend.objects().contains_key(new_key));
        assert(backend.objects()[new_key] == enc_view);
        assert(spec_encode_index(idx@) == enc_view);
        assert(rebuild_post(
            *old(backend),
            *backend,
            new_index_id@,
            packs@,
            dry_run,
            Result::<Index, Error>::Ok(idx),
        ));
    }
    Ok(idx)
}

/// Distinct identifiers make distinct index keys.
proof fn lemma_index_name_injective(a: Seq<char>, b: Seq<char>)
    requires
        valid_id(a),
        valid_id(b),
        destination_spec(index_name(a)) == destination_spec(index_name(b)),
    ensures
        a == b,
{
    backend::lemma_kind_names(a);
    backend::lemma_kind_names(b);
    let ka = seq!['i', 'n', 'd', 'e', 'x', 'e', 's', '/'] + index_name(a);
    let kb = seq!['i', 'n', 'd', 'e', 'x', 'e', 's', '/'] + index_name(b);
    assert(ka == kb);
    assert(index_name(a) =~= index_name(b)) by {
        assert(ka.len() == kb.len());
        assert(forall|i: int| 0 <= i < index_name(a).len() ==> ka[8 + i] == index_name(a)[i]);
        assert(forall|i: int| 0 <= i < index_name(b).len() ==> kb[8 + i] == index_name(b)[i]);
    }
    assert(a =~= b) by {
        assert(a.len() == b.len());
        assert(forall|i: int| 0 <= i < a.len() ==> index_name(a)[i] == a[i]);
        assert(forall|i: int| 0 <= i < b.len() ==> index_name(b)[i] == b[i]);
    }
}

} // verus!
