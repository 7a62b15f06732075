use vstd::prelude::*;

use crate::errors::Error;
use crate::hash::encoding::{
    append_bytes, decode_u16_le, decode_u64_le, encode_u16_le, encode_u64_le, le_bytes_u16,
    le_bytes_u64, le_half, le_word,
};
use crate::hash::layers::{Layer, lemma_matches_up_to_bytes, matches_up_to, partial_match_up_to};
use crate::hash::encoding::{lemma_le_half_of_bytes, lemma_le_word_of_bytes};
use crate::hash::sponge::{basic_hash, lemma_h_node_len, spec_basic_hash, spec_round_constants};

verus! {

/// How closely `k` matches `h`: 3 when all layers agree, 2 when X and Y agree,
/// 1 when only X agrees, 0 otherwise.
pub open spec fn match_score(h: Seq<u8>, k: Seq<u8>) -> int {
    if matches_up_to(h, k, Layer::Z) {
        3
    } else if matches_up_to(h, k, Layer::Y) {
        2
    } else if matches_up_to(h, k, Layer::X) {
        1
    } else {
        0
    }
}

/// The known hashes that match `h` with score `s`, in the order they were registered.
pub open spec fn with_score(known: Seq<[u8; 32]>, h: Seq<u8>, s: int) -> Seq<[u8; 32]> {
    known.filter(|k: [u8; 32]| match_score(h, k@) == s)
}

/// The candidates for `h`: the known hashes with a score above 0, best score first,
/// in registration order within one score.
pub open spec fn spec_candidates(known: Seq<[u8; 32]>, h: Seq<u8>) -> Seq<[u8; 32]> {
    with_score(known, h, 3) + with_score(known, h, 2) + with_score(known, h, 1)
}

/// The digests one after another.
pub open spec fn flatten_digests(hs: Seq<[u8; 32]>) -> Seq<u8>
    decreases hs.len(),
{
    if hs.len() == 0 {
        Seq::empty()
    } else {
        flatten_digests(hs.drop_last()) + hs.last()@
    }
}

/// The four magic bytes `VINF`.
pub open spec fn blob_magic() -> Seq<u8> {
    seq![0x56u8, 0x49u8, 0x4Eu8, 0x46u8]
}

/// A VINF blob: magic, version 1, flags 0, a reserved 16-bit zero, the original
/// length (u64 LE), the digest (32 bytes), the candidate count (u16 LE, modulo
/// 2^16), then the candidates.
pub open spec fn spec_blob(data_len: u64, h: Seq<u8>, cands: Seq<[u8; 32]>) -> Seq<u8> {
    blob_magic() + seq![1u8, 0u8] + le_bytes_u16(0) + le_bytes_u64(data_len) + h + le_bytes_u16(
        (cands.len() % 65536) as u16,
    ) + flatten_digests(cands)
}

/// `b` is laid out as a VINF blob: at least the 50-byte header, the magic, version 1,
/// whole candidates after the header, and their number modulo 2^16 in the count field.
pub open spec fn blob_well_formed(b: Seq<u8>) -> bool {
    &&& b.len() >= 50
    &&& b.take(4) == blob_magic()
    &&& b[4] == 1u8
    &&& (b.len() - 50) % 32 == 0
    &&& ((b.len() - 50) / 32) % 65536 == le_half(b.subrange(48, 50)) as int
}

/// The original length recorded in a blob.
pub open spec fn blob_data_len(b: Seq<u8>) -> u64 {
    le_word(b.subrange(8, 16))
}

/// The digest recorded in a blob.
pub open spec fn blob_digest(b: Seq<u8>) -> Seq<u8> {
    b.subrange(16, 48)
}

/// `d` has the length and the digest that the blob records.
pub open spec fn restores(d: Seq<u8>, b: Seq<u8>) -> bool {
    &&& d.len() == blob_data_len(b)
    &&& spec_basic_hash(d) == blob_digest(b)
}

/// The first index `i >= j` of `known` whose data `restores` the blob.
pub open spec fn first_match_from(known: Seq<Seq<u8>>, b: Seq<u8>, j: int) -> Option<int>
    decreases known.len() - j,
{
    if j < 0 || j >= known.len() {
        None
    } else if restores(known[j], b) {
        Some(j)
    } else {
        first_match_from(known, b, j + 1)
    }
}

/// The first known data that the blob's length and digest fit.
pub open spec fn first_match(known: Seq<Seq<u8>>, b: Seq<u8>) -> Option<int> {
    first_match_from(known, b, 0)
}

/// What decompressing `b` gives with the known data `known`: the first known data
/// that `restores` a well-formed blob, and nothing otherwise.
pub open spec fn spec_decompressed(known: Seq<Seq<u8>>, b: Seq<u8>) -> Seq<u8> {
    if blob_well_formed(b) {
        match first_match(known, b) {
            Some(j) => known[j],
            None => Seq::empty(),
        }
    } else {
        Seq::empty()
    }
}

/// The digests stored one after another in `b`, 32 bytes each.
pub open spec fn split_digests(b: Seq<u8>) -> Seq<Seq<u8>> {
    Seq::new(b.len() / 32, |i: int| b.subrange(32 * i, 32 * i + 32))
}

/// The byte views of a sequence of digests.
pub open spec fn digest_views(hs: Seq<[u8; 32]>) -> Seq<Seq<u8>> {
    hs.map_values(|h: [u8; 32]| h@)
}

/// The VINF compressor: the last digest it computed, the last candidates it found,
/// and the hashes and data it knows.
pub struct Vinf {
    last_hash: Option<[u8; 32]>,
    known_hashes: Vec<[u8; 32]>,
    last_candidates: Vec<[u8; 32]>,
    known_data: Vec<Vec<u8>>,
}

impl Vinf {
    /// The digest of the last compressed data, if any.
    pub closed spec fn spec_last_hash(&self) -> Option<[u8; 32]> {
        self.last_hash
    }

    /// The registered hashes, in registration order.
    pub closed spec fn spec_known_hashes(&self) -> Seq<[u8; 32]> {
        self.known_hashes@
    }

    /// The candidates found by the last compression.
    pub closed spec fn spec_last_candidates(&self) -> Seq<[u8; 32]> {
        self.last_candidates@
    }

    /// The registered data, in registration order.
    pub closed spec fn spec_known_data(&self) -> Seq<Seq<u8>> {
        self.known_data@.map_values(|d: Vec<u8>| d@)
    }

    /// A compressor that knows nothing and has compressed nothing.
    pub fn new() -> (v: Vinf)
        ensures
            v.spec_last_hash() is None,
            v.spec_known_hashes() == Seq::<[u8; 32]>::empty(),
            v.spec_last_candidates() == Seq::<[u8; 32]>::empty(),
            v.spec_known_data() == Seq::<Seq<u8>>::empty(),
    {
        let v = Vinf {
            last_hash: None,
            known_hashes: Vec::new(),
            last_candidates: Vec::new(),
            known_data: Vec::new(),
        };
        assert(v.spec_known_data() =~= Seq::<Seq<u8>>::empty());
        v
    }

    /// The digest of the last compressed data, if any.
    pub fn last_hash(&self) -> (r: Option<[u8; 32]>)
        ensures
            r == self.spec_last_hash(),
    {
        self.last_hash
    }

    /// Registers a hash to look for among partial matches.
    pub fn register_known_hash(&mut self, h: [u8; 32])
        ensures
            final(self).spec_known_hashes() == old(self).spec_known_hashes().push(h),
            final(self).spec_known_data() == old(self).spec_known_data(),
            final(self).spec_last_hash() == old(self).spec_last_hash(),
            final(self).spec_last_candidates() == old(self).spec_last_candidates(),
    {
        self.known_hashes.push(h);
    }

    /// Registers data that decompression can give back; its digest becomes a known hash.
    pub fn register_known_data(&mut self, data: &[u8])
        ensures
            final(self).spec_known_data() == old(self).spec_known_data().push(data@),
            final(self).spec_known_hashes().len() == old(self).spec_known_hashes().len() + 1,
            final(self).spec_known_hashes().take(old(self).spec_known_hashes().len() as int)
                == old(self).spec_known_hashes(),
            final(self).spec_known_hashes().last()@ == spec_basic_hash(data@),
            final(self).spec_last_hash() == old(self).spec_last_hash(),
            final(self).spec_last_candidates() == old(self).spec_last_candidates(),
    {
        let h = basic_hash(data);
        let mut copy: Vec<u8> = Vec::new();
        append_bytes(&mut copy, data);
        assert(copy@ =~= data@);
        self.known_data.push(copy);
        self.known_hashes.push(h);
        assert(self.spec_known_data() =~= old(self).spec_known_data().push(data@));
        assert(self.spec_known_hashes().take(old(self).spec_known_hashes().len() as int)
            =~= old(self).spec_known_hashes());
    }

    /// The candidates found by the last compression.
    pub fn last_candidates(&self) -> (r: Vec<[u8; 32]>)
        ensures
            r@ == self.spec_last_candidates(),
    {
        copy_digests(&self.last_candidates)
    }

    /// Appends to `out` the known hashes that match `h` with score `s`.
    fn collect_with_score(&self, h: &[u8; 32], s: u8, out: &mut Vec<[u8; 32]>)
        ensures
            final(out)@ == old(out)@ + with_score(self.known_hashes@, h@, s as int),
    {
        let ghost start = out@;
        let ghost known = self.known_hashes@;
        let ghost pred = |k: [u8; 32]| match_score(h@, k@) == s as int;
        let mut i: usize = 0;
        assert(known.take(0).filter(pred) =~= Seq::<[u8; 32]>::empty()) by {
            reveal(Seq::filter);
        }
        assert(start =~= start + known.take(0).filter(pred));
        while i < self.known_hashes.len()
            invariant
                known == self.known_hashes@,
                pred == (|k: [u8; 32]| match_score(h@, k@) == s as int),
                0 <= i <= known.len(),
                out@ == start + known.take(i as int).filter(pred),
            decreases known.len() - i,
        {
            let k = self.known_hashes[i];
            let sc = match_score_exec(h, &k);
            proof {
                lemma_filter_take_step(known, pred, i as int);
            }
            if sc == s {
                out.push(k);
            }
            i += 1;
            assert(out@ =~= start + known.take(i as int).filter(pred));
        }
        assert(known.take(known.len() as int) =~= known);
    }

    /// The known hashes that partially match `h`, best match first.
    fn find_partial_matches(&self, h: &[u8; 32]) -> (r: Vec<[u8; 32]>)
        ensures
            r@ == spec_candidates(self.known_hashes@, h@),
    {
        let mut out: Vec<[u8; 32]> = Vec::new();
        self.collect_with_score(h, 3, &mut out);
        self.collect_with_score(h, 2, &mut out);
        self.collect_with_score(h, 1, &mut out);
        assert(out@ =~= spec_candidates(self.known_hashes@, h@));
        out
    }

    /// Compresses `data` into a VINF blob: records its digest and its candidates,
    /// and returns the blob that `spec_blob` lays out.
    pub fn compress(&mut self, data: &[u8]) -> (r: Result<Vec<u8>, Error>)
        ensures
            final(self).spec_last_hash() matches Some(h) && h@ == spec_basic_hash(data@),
            final(self).spec_last_candidates() == spec_candidates(
                old(self).spec_known_hashes(),
                spec_basic_hash(data@),
            ),
            final(self).spec_known_hashes() == old(self).spec_known_hashes(),
            final(self).spec_known_data() == old(self).spec_known_data(),
            r matches Ok(b) && b@ == spec_blob(
                data@.len() as u64,
                spec_basic_hash(data@),
                final(self).spec_last_candidates(),
            ),
    {
        let h = basic_hash(data);
        self.last_hash = Some(h);
        let candidates = self.find_partial_matches(&h);
        self.last_candidates = copy_digests(&candidates);
        let mut out: Vec<u8> = Vec::new();
        out.push(0x56u8);
        out.push(0x49u8);
        out.push(0x4Eu8);
        out.push(0x46u8);
        out.push(1u8);
        out.push(0u8);
        append_bytes(&mut out, &encode_u16_le(0u16));
        append_bytes(&mut out, &encode_u64_le(data.len() as u64));
        append_bytes(&mut out, &h);
        let ncand = candidates.len();
        let count = ncand as u16;
        assert(count == (ncand % 65536) as u16) by (bit_vector)
            requires
                count == ncand as u16,
        ;
        append_bytes(&mut out, &encode_u16_le(count));
        let ghost header = out@;
        let mut i: usize = 0;
        while i < candidates.len()
            invariant
                0 <= i <= candidates@.len(),
                out@ == header + flatten_digests(candidates@.take(i as int)),
            decreases candidates@.len() - i,
        {
            append_bytes(&mut out, &candidates[i]);
            proof {
                assert(candidates@.take(i + 1).drop_last() =~= candidates@.take(i as int));
            }
            i += 1;
        }
        assert(candidates@.take(candidates@.len() as int) =~= candidates@);
        assert(out@ =~= spec_blob(data@.len() as u64, spec_basic_hash(data@), candidates@));
        Ok(out)
    }

    /// Gives back the data that a blob was compressed from, when it is known data:
    /// the first known data with the recorded length and digest; nothing for bytes
    /// that are not a blob or that no known data fits.
    pub fn decompress(&self, vinf_bytes: &[u8]) -> (r: Result<Vec<u8>, Error>)
        ensures
            r matches Ok(d) && d@ == spec_decompressed(self.spec_known_data(), vinf_bytes@),
    {
        if !check_blob(vinf_bytes) {
            return Ok(Vec::new());
        }
        let orig_len = decode_u64_le(vinf_bytes, 8);
        let mut h = [0u8; 32];
        let mut q: usize = 0;
        while q < 32
            invariant
                vinf_bytes@.len() >= 50,
                0 <= q <= 32,
                forall|p: int| 0 <= p < q ==> h[p] == vinf_bytes@[16 + p],
            decreases 32 - q,
        {
            h[q] = vinf_bytes[16 + q];
            q += 1;
        }
        assert(h@ =~= blob_digest(vinf_bytes@));
        let ghost known = self.spec_known_data();
        let mut j: usize = 0;
        while j < self.known_data.len()
            invariant
                known == self.spec_known_data(),
                known.len() == self.known_data@.len(),
                0 <= j <= known.len(),
                h@ == blob_digest(vinf_bytes@),
                orig_len == blob_data_len(vinf_bytes@),
                blob_well_formed(vinf_bytes@),
                first_match(known, vinf_bytes@) == first_match_from(known, vinf_bytes@, j as int),
            decreases known.len() - j,
        {
            let d = &self.known_data[j];
            assert(d@ == known[j as int]);
            if d.len() as u64 == orig_len {
                let dh = basic_hash(d.as_slice());
                if digests_equal(&dh, &h) {
                    let mut copy: Vec<u8> = Vec::new();
                    append_bytes(&mut copy, d.as_slice());
                    assert(copy@ =~= known[j as int]);
                    return Ok(copy);
                }
            }
            j += 1;
        }
        Ok(Vec::new())
    }

    /// The known hashes, one after another.
    pub fn to_vhash_bytes(&self) -> (r: Vec<u8>)
        ensures
            r@ == flatten_digests(self.spec_known_hashes()),
    {
        let mut out: Vec<u8> = Vec::new();
        let mut i: usize = 0;
        while i < self.known_hashes.len()
            invariant
                0 <= i <= self.known_hashes@.len(),
                out@ == flatten_digests(self.known_hashes@.take(i as int)),
            decreases self.known_hashes@.len() - i,
        {
            append_bytes(&mut out, &self.known_hashes[i]);
            proof {
                assert(self.known_hashes@.take(i + 1).drop_last() =~= self.known_hashes@.take(
                    i as int,
                ));
            }
            i += 1;
        }
        assert(self.known_hashes@.take(self.known_hashes@.len() as int) =~= self.known_hashes@);
        out
    }

    /// Registers the hashes stored one after another in `bytes`; bytes whose length
    /// is not a multiple of 32 are refused with `InvalidFormat` and change nothing.
    pub fn load_vhash_bytes(&mut self, bytes: &[u8]) -> (r: Result<(), Error>)
        ensures
            bytes@.len() % 32 != 0 ==> (r matches Err(Error::InvalidFormat)
                && final(self).spec_known_hashes() == old(self).spec_known_hashes()),
            bytes@.len() % 32 == 0 ==> r is Ok && digest_views(final(self).spec_known_hashes())
                == digest_views(old(self).spec_known_hashes()) + split_digests(bytes@),
            final(self).spec_known_data() == old(self).spec_known_data(),
            final(self).spec_last_hash() == old(self).spec_last_hash(),
            final(self).spec_last_candidates() == old(self).spec_last_candidates(),
    {
        if bytes.len() % 32 != 0 {
            return Err(Error::InvalidFormat);
        }
        let ghost start = digest_views(self.known_hashes@);
        let n = bytes.len() / 32;
        let mut i: usize = 0;
        assert(split_digests(bytes@).take(0) =~= Seq::<Seq<u8>>::empty());
        assert(start + split_digests(bytes@).take(0) =~= start);
        while i < n
            invariant
                n == bytes@.len() / 32,
                bytes@.len() % 32 == 0,
                0 <= i <= n,
                digest_views(self.known_hashes@) == start + split_digests(bytes@).take(i as int),
                self.known_data@ == old(self).known_data@,
                self.last_hash == old(self).last_hash,
                self.last_candidates@ == old(self).last_candidates@,
            decreases n - i,
        {
            let mut h = [0u8; 32];
            let mut q: usize = 0;
            assert(32 * i + 32 <= bytes@.len()) by (nonlinear_arith)
                requires
                    i < n,
                    n == bytes@.len() / 32,
            ;
            let blen = bytes.len();
            let base = 32 * i;
            while q < 32
                invariant
                    i < n,
                    n == bytes@.len() / 32,
                    blen == bytes@.len(),
                    base == 32 * i,
                    base + 32 <= blen,
                    0 <= q <= 32,
                    forall|p: int| 0 <= p < q ==> h[p] == bytes@[32 * i + p],
                decreases 32 - q,
            {
                h[q] = bytes[base + q];
                q += 1;
            }
            assert(h@ =~= bytes@.subrange(32 * i as int, 32 * i + 32));
            let ghost before = self.known_hashes@;
            self.known_hashes.push(h);
            proof {
                assert(digest_views(self.known_hashes@) =~= digest_views(before).push(h@));
                assert(split_digests(bytes@).take(i + 1) =~= split_digests(bytes@).take(
                    i as int,
                ).push(h@));
            }
            i += 1;
            assert(digest_views(self.known_hashes@) =~= start + split_digests(bytes@).take(
                i as int,
            ));
        }
        assert(split_digests(bytes@).take(n as int) =~= split_digests(bytes@));
        assert(self.spec_known_data() =~= old(self).spec_known_data());
        Ok(())
    }
}

impl Default for Vinf {
    fn default() -> (v: Vinf)
        ensures
            v.spec_last_hash() is None,
            v.spec_known_hashes() == Seq::<[u8; 32]>::empty(),
            v.spec_last_candidates() == Seq::<[u8; 32]>::empty(),
            v.spec_known_data() == Seq::<Seq<u8>>::empty(),
    {
        Vinf::new()
    }
}

/// Compresses `data` with a compressor that knows nothing.
pub fn compress(data: &[u8]) -> (r: Result<Vec<u8>, Error>)
    ensures
        r matches Ok(b) && b@ == spec_blob(
            data@.len() as u64,
            spec_basic_hash(data@),
            Seq::<[u8; 32]>::empty(),
        ),
{
    let mut v = Vinf::new();
    let r = v.compress(data);
    proof {
        let h = spec_basic_hash(data@);
        reveal(Seq::filter);
        assert(with_score(Seq::<[u8; 32]>::empty(), h, 3) =~= Seq::<[u8; 32]>::empty());
        assert(with_score(Seq::<[u8; 32]>::empty(), h, 2) =~= Seq::<[u8; 32]>::empty());
        assert(with_score(Seq::<[u8; 32]>::empty(), h, 1) =~= Seq::<[u8; 32]>::empty());
        assert(spec_candidates(Seq::<[u8; 32]>::empty(), h) =~= Seq::<[u8; 32]>::empty());
    }
    r
}

/// Decompresses with a compressor that knows nothing: it knows no data to give
/// back, so every input gives an empty result.
pub fn decompress(vinf_bytes: &[u8]) -> (r: Result<Vec<u8>, Error>)
    ensures
        r matches Ok(d) && d@ == Seq::<u8>::empty(),
{
    let v = Vinf::new();
    let r = v.decompress(vinf_bytes);
    assert(first_match_from(v.spec_known_data(), vinf_bytes@, 0) is None);
    r
}

/// A point in VINF space.
#[derive(Debug, Clone, Copy, PartialEq, Eq)]
pub struct Coordinate {
    pub x: i64,
    pub y: i64,
    pub z: i64,
}

fn match_score_exec(h: &[u8; 32], k: &[u8; 32]) -> (s: u8)
    ensures
        s as int == match_score(h@, k@),
{
    if partial_match_up_to(h, k, Layer::Z) {
        3
    } else if partial_match_up_to(h, k, Layer::Y) {
        2
    } else if partial_match_up_to(h, k, Layer::X) {
        1
    } else {
        0
    }
}

fn copy_digests(v: &Vec<[u8; 32]>) -> (r: Vec<[u8; 32]>)
    ensures
        r@ == v@,
{
    let mut out: Vec<[u8; 32]> = Vec::new();
    let mut i: usize = 0;
    while i < v.len()
        invariant
            0 <= i <= v@.len(),
            out@ == v@.take(i as int),
        decreases v@.len() - i,
    {
        out.push(v[i]);
        i += 1;
        assert(out@ =~= v@.take(i as int));
    }
    assert(v@.take(v@.len() as int) =~= v@);
    out
}

fn digests_equal(a: &[u8; 32], b: &[u8; 32]) -> (r: bool)
    ensures
        r == (a@ == b@),
{
    let mut i: usize = 0;
    while i < 32
        invariant
            0 <= i <= 32,
            forall|q: int| 0 <= q < i ==> a@[q] == b@[q],
        decreases 32 - i,
    {
        if a[i] != b[i] {
            return false;
        }
        i += 1;
    }
    assert(a@ =~= b@);
    true
}

/// Checks the layout that `blob_well_formed` describes.
fn check_blob(b: &[u8]) -> (r: bool)
    ensures
        r == blob_well_formed(b@),
{
    if b.len() < 50 {
        return false;
    }
    let magic_ok = b[0] == 0x56u8 && b[1] == 0x49u8 && b[2] == 0x4Eu8 && b[3] == 0x46u8;
    assert(magic_ok == (b@.take(4) == blob_magic())) by {
        if magic_ok {
            assert(b@.take(4) =~= blob_magic());
        } else if b@.take(4) == blob_magic() {
            assert(b@.take(4)[0] == b@[0]);
            assert(b@.take(4)[1] == b@[1]);
            assert(b@.take(4)[2] == b@[2]);
            assert(b@.take(4)[3] == b@[3]);
        }
    }
    if !magic_ok || b[4] != 1u8 {
        return false;
    }
    let body = b.len() - 50;
    if body % 32 != 0 {
        return false;
    }
    let count = decode_u16_le(b, 48);
    (body / 32) % 65536 == count as usize
}

proof fn lemma_filter_take_step(s: Seq<[u8; 32]>, pred: spec_fn([u8; 32]) -> bool, i: int)
    requires
        0 <= i < s.len(),
    ensures
        s.take(i + 1).filter(pred) == if pred(s[i]) {
            s.take(i).filter(pred).push(s[i])
        } else {
            s.take(i).filter(pred)
        },
{
    reveal(Seq::filter);
    assert(s.take(i + 1).drop_last() =~= s.take(i));
}

/// The digests are laid one after another, 32 bytes each.
pub proof fn lemma_flatten_digests(hs: Seq<[u8; 32]>)
    ensures
        flatten_digests(hs).len() == 32 * hs.len(),
        forall|i: int|
            0 <= i < hs.len() ==> #[trigger] flatten_digests(hs).subrange(32 * i, 32 * i + 32)
                == hs[i]@,
    decreases hs.len(),
{
    if hs.len() > 0 {
        let init = hs.drop_last();
        lemma_flatten_digests(init);
        let f = flatten_digests(hs);
        assert forall|i: int| 0 <= i < hs.len() implies #[trigger] f.subrange(32 * i, 32 * i + 32)
            == hs[i]@ by {
            if i < hs.len() - 1 {
                assert(f.subrange(32 * i, 32 * i + 32) =~= flatten_digests(init).subrange(
                    32 * i,
                    32 * i + 32,
                ));
                assert(init[i] == hs[i]);
            } else {
                assert(f.subrange(32 * i, 32 * i + 32) =~= hs.last()@);
            }
        }
    }
}

/// Saving the known hashes and loading the bytes gives back the same hashes.
pub proof fn lemma_vhash_roundtrip(hs: Seq<[u8; 32]>)
    ensures
        flatten_digests(hs).len() % 32 == 0,
        split_digests(flatten_digests(hs)) == digest_views(hs),
{
    lemma_flatten_digests(hs);
    let f = flatten_digests(hs);
    assert(f.len() / 32 == hs.len());
    assert forall|i: int| 0 <= i < hs.len() implies #[trigger] split_digests(f)[i]
        == digest_views(hs)[i] by {
        assert(f.subrange(32 * i, 32 * i + 32) == hs[i]@);
    }
    assert(split_digests(f) =~= digest_views(hs));
}

proof fn lemma_first_match_found(known: Seq<Seq<u8>>, b: Seq<u8>, j: int, k: int)
    requires
        0 <= j <= k < known.len(),
        restores(known[k], b),
    ensures
        first_match_from(known, b, j) matches Some(m) && j <= m <= k && restores(known[m], b),
    decreases k - j,
{
    if !restores(known[j], b) {
        lemma_first_match_found(known, b, j + 1, k);
    }
}

/// The blob that `compress` emits for `data` is well formed, records the length and
/// digest of `data`, and takes 50 bytes plus 32 per candidate, whatever the size of `data`.
pub proof fn lemma_blob_well_formed(data: Seq<u8>, cands: Seq<[u8; 32]>)
    requires
        data.len() <= u64::MAX,
    ensures
        spec_blob(data.len() as u64, spec_basic_hash(data), cands).len() == 50 + 32 * cands.len(),
        blob_well_formed(spec_blob(data.len() as u64, spec_basic_hash(data), cands)),
        blob_data_len(spec_blob(data.len() as u64, spec_basic_hash(data), cands)) == data.len(),
        blob_digest(spec_blob(data.len() as u64, spec_basic_hash(data), cands)) == spec_basic_hash(
            data,
        ),
{
    let h = spec_basic_hash(data);
    lemma_h_node_len(data, spec_round_constants());
    lemma_flatten_digests(cands);
    lemma_le_word_of_bytes(data.len() as u64);
    lemma_le_half_of_bytes(0u16);
    let count = (cands.len() % 65536) as u16;
    lemma_le_half_of_bytes(count);
    let b = spec_blob(data.len() as u64, h, cands);
    assert(b.len() == 50 + 32 * cands.len());
    assert(b.take(4) =~= blob_magic());
    assert(b.subrange(8, 16) =~= le_bytes_u64(data.len() as u64));
    assert(b.subrange(16, 48) =~= h);
    assert(b.subrange(48, 50) =~= le_bytes_u16(count));
    assert((b.len() - 50) / 32 == cands.len()) by (nonlinear_arith)
        requires
            b.len() == 50 + 32 * cands.len(),
    ;
}

/// Compressing registered data and decompressing the blob gives back registered data
/// of the same length and digest, found no later than the data itself; when no other
/// registered data shares that length and digest, it gives back the data itself.
pub proof fn lemma_compress_decompress(
    known: Seq<Seq<u8>>,
    data: Seq<u8>,
    cands: Seq<[u8; 32]>,
    i: int,
)
    requires
        0 <= i < known.len(),
        known[i] == data,
        data.len() <= u64::MAX,
    ensures
        ({
            let b = spec_blob(data.len() as u64, spec_basic_hash(data), cands);
            &&& blob_well_formed(b)
            &&& first_match(known, b) matches Some(j) && j <= i && spec_decompressed(known, b)
                == known[j]
            &&& spec_decompressed(known, b).len() == data.len()
            &&& spec_basic_hash(spec_decompressed(known, b)) == spec_basic_hash(data)
            &&& (forall|k: int|
                0 <= k < known.len() && known[k].len() == data.len() && spec_basic_hash(known[k])
                    == spec_basic_hash(data) ==> known[k] == data) ==> spec_decompressed(known, b)
                == data
        }),
{
    let b = spec_blob(data.len() as u64, spec_basic_hash(data), cands);
    lemma_blob_well_formed(data, cands);
    lemma_first_match_found(known, b, 0, i);
}

/// The candidates are known hashes that agree with the digest at least on layer X,
/// every such known hash is among them, and better matches come first.
pub proof fn lemma_candidates(known: Seq<[u8; 32]>, h: Seq<u8>)
    ensures
        forall|c: [u8; 32]| #[trigger]
            spec_candidates(known, h).contains(c) ==> known.contains(c) && matches_up_to(
                h,
                c@,
                Layer::X,
            ),
        forall|k: [u8; 32]| #[trigger]
            known.contains(k) && matches_up_to(h, k@, Layer::X) ==> spec_candidates(
                known,
                h,
            ).contains(k),
        forall|a: int, b: int|
            0 <= a < b < spec_candidates(known, h).len() ==> match_score(
                h,
                #[trigger] spec_candidates(known, h)[a]@,
            ) >= match_score(h, #[trigger] spec_candidates(known, h)[b]@),
{
    broadcast use vstd::seq_lib::group_filter_ensures;

    let p3 = |k: [u8; 32]| match_score(h, k@) == 3;
    let p2 = |k: [u8; 32]| match_score(h, k@) == 2;
    let p1 = |k: [u8; 32]| match_score(h, k@) == 1;
    let f3 = with_score(known, h, 3);
    let f2 = with_score(known, h, 2);
    let f1 = with_score(known, h, 1);
    let c = spec_candidates(known, h);
    assert(c == f3 + f2 + f1);
    assert forall|i: int| 0 <= i < c.len() implies #[trigger] known.contains(c[i]) && match_score(
        h,
        c[i]@,
    ) == if i < f3.len() {
        3int
    } else if i < f3.len() + f2.len() {
        2int
    } else {
        1int
    } by {
        if i < f3.len() {
            assert(c[i] == f3[i]);
            assert(p3(f3[i]));
            assert(f3.contains(c[i]));
            known.lemma_filter_contains_rev(p3, c[i]);
        } else if i < f3.len() + f2.len() {
            assert(c[i] == f2[i - f3.len()]);
            assert(p2(f2[i - f3.len()]));
            assert(f2.contains(c[i]));
            known.lemma_filter_contains_rev(p2, c[i]);
        } else {
            assert(c[i] == f1[i - f3.len() - f2.len()]);
            assert(p1(f1[i - f3.len() - f2.len()]));
            assert(f1.contains(c[i]));
            known.lemma_filter_contains_rev(p1, c[i]);
        }
    }
    assert forall|x: [u8; 32]| #[trigger] c.contains(x) implies known.contains(x) && matches_up_to(
        h,
        x@,
        Layer::X,
    ) by {
        let i = choose|i: int| 0 <= i < c.len() && c[i] == x;
        assert(known.contains(c[i]));
        assert(match_score(h, x@) >= 1);
    }
    assert forall|k: [u8; 32]| #[trigger]
        known.contains(k) && matches_up_to(h, k@, Layer::X) implies c.contains(k) by {
        let j = choose|j: int| 0 <= j < known.len() && known[j] == k;
        let s = match_score(h, k@);
        if s == 3 {
            assert(f3.contains(k));
            let q = choose|q: int| 0 <= q < f3.len() && f3[q] == k;
            assert(c[q] == k);
        } else if s == 2 {
            assert(f2.contains(k));
            let q = choose|q: int| 0 <= q < f2.len() && f2[q] == k;
            assert(c[f3.len() + q] == k);
        } else {
            assert(s == 1);
            assert(f1.contains(k));
            let q = choose|q: int| 0 <= q < f1.len() && f1[q] == k;
            assert(c[f3.len() + f2.len() + q] == k);
        }
    }
}

/// The score of a known hash `k` against a digest `h`, by bytes: 3 exactly when
/// `k == h`, 2 when they agree on bytes 0..16 but not all 32, 1 when they agree on
/// bytes 0..8 but not 0..16, and 0 when they differ within bytes 0..8.
pub proof fn lemma_match_score_bytes(h: Seq<u8>, k: Seq<u8>)
    requires
        h.len() == 32,
        k.len() == 32,
    ensures
        match_score(h, k) == 3 <==> h == k,
        match_score(h, k) == 2 <==> h != k && (forall|i: int| 0 <= i < 16 ==> #[trigger] h[i] == k[i]),
        match_score(h, k) == 1 <==> (forall|i: int| 0 <= i < 8 ==> #[trigger] h[i] == k[i]) && !(
        forall|i: int| 0 <= i < 16 ==> #[trigger] h[i] == k[i]),
        match_score(h, k) == 0 <==> !(forall|i: int| 0 <= i < 8 ==> #[trigger] h[i] == k[i]),
{
    lemma_matches_up_to_bytes(h, k, Layer::X);
    lemma_matches_up_to_bytes(h, k, Layer::Y);
    lemma_matches_up_to_bytes(h, k, Layer::Z);
    if forall|i: int| 0 <= i < 32 ==> #[trigger] h[i] == k[i] {
        assert(h =~= k);
    }
    if forall|i: int| 0 <= i < 16 ==> #[trigger] h[i] == k[i] {
        assert forall|i: int| 0 <= i < 8 implies #[trigger] h[i] == k[i] by {
            assert(h[i] == k[i]);
        }
    }
    if forall|i: int| 0 <= i < 32 ==> #[trigger] h[i] == k[i] {
        assert forall|i: int| 0 <= i < 16 implies #[trigger] h[i] == k[i] by {
            assert(h[i] == k[i]);
        }
    }
}

/// An exact match comes first: when the digest is among the candidates, every
/// candidate listed before it is the digest itself.
pub proof fn lemma_exact_match_first(known: Seq<[u8; 32]>, h: Seq<u8>, a: int, b: int)
    requires
        h.len() == 32,
        0 <= a < b < spec_candidates(known, h).len(),
        spec_candidates(known, h)[b]@ == h,
    ensures
        spec_candidates(known, h)[a]@ == h,
{
    let c = spec_candidates(known, h);
    lemma_candidates(known, h);
    assert(match_score(h, c[a]@) >= match_score(h, c[b]@));
    lemma_match_score_bytes(h, c[b]@);
    lemma_match_score_bytes(h, c[a]@);
    assert(match_score(h, c[a]@) <= 3);
}

} // verus!
