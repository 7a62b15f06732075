use vstd::prelude::*;

use super::encoding::{append_bytes, decode_u64_le, encode_u64_le, le_bytes_u64, le_word};
use crate::errors::Error;
use super::permutation::{constants_view, spec_vinf_p, vinf_p};

verus! {

/// Bytes absorbed per block.
pub const RATE_BYTES: usize = 32;

/// Domain byte of per-node digests.
pub const DOMAIN_NODE: u8 = 0x4E;

/// Domain byte of the mixing inputs.
pub const DOMAIN_MIX: u8 = 0x4D;

/// Domain byte of the final output stream.
pub const DOMAIN_FINAL: u8 = 0x46;

/// Domain byte of chunks absorbed after the first.
pub const DOMAIN_NONE: u8 = 0x00;

/// Seed of the round-constant generator.
pub const RC_SEED: u128 = 0x9E3779B97F4A7C15u128;

/// Value XORed into every round constant, offset by round and lane.
pub const RC_XOR_CONST: u64 = 0xC0FFEE1234567890u64;

/// Round constant of round `r`, lane `i`.
pub open spec fn spec_rc(r: int, i: int) -> u64 {
    let mul = (r * 0x9F + i + 1) as u128;
    let v128 = RC_SEED.wrapping_mul(mul);
    (v128 as u64) ^ RC_XOR_CONST.wrapping_add((((r as u64) << 8u64) | (i as u64)) as u64)
}

/// The table of round constants.
pub open spec fn spec_round_constants() -> Seq<Seq<u64>> {
    Seq::new(12, |r: int| Seq::new(8, |i: int| spec_rc(r, i)))
}

/// The all-zero state.
pub open spec fn zero_state() -> Seq<u64> {
    Seq::new(8, |i: int| 0u64)
}

/// A final chunk of fewer than `RATE_BYTES` bytes, padded with `0x01` and zeros;
/// a full chunk as it is.
pub open spec fn pad_block(chunk: Seq<u8>) -> Seq<u8> {
    if chunk.len() >= 32 {
        chunk
    } else {
        chunk + seq![1u8] + Seq::new((31 - chunk.len()) as nat, |k: int| 0u8)
    }
}

/// XOR of a 32-byte block into the little-endian bytes of words 0..3.
pub open spec fn xor_block(s: Seq<u64>, block: Seq<u8>) -> Seq<u64> {
    Seq::new(
        8,
        |k: int|
            if k < 4 {
                s[k] ^ le_word(block.subrange(8 * k, 8 * k + 8))
            } else {
                s[k]
            },
    )
}

/// The smaller of `a` and `b`.
pub open spec fn min_nat(a: nat, b: nat) -> nat {
    if a <= b {
        a
    } else {
        b
    }
}

/// Absorbing `stream` block by block: each block of up to 32 bytes is padded,
/// XORed into the state, and the state permuted.
pub open spec fn absorb_stream(s: Seq<u64>, stream: Seq<u8>, rc: Seq<Seq<u64>>) -> Seq<u64>
    decreases stream.len(),
{
    if stream.len() == 0 {
        s
    } else {
        let next = spec_vinf_p(
            xor_block(s, pad_block(stream.take(min_nat(32, stream.len()) as int))),
            rc,
        );
        if stream.len() <= 32 {
            next
        } else {
            absorb_stream(next, stream.skip(32), rc)
        }
    }
}

/// Absorbing `data` under the domain byte `domain`.
pub open spec fn spec_absorb(s: Seq<u64>, domain: u8, data: Seq<u8>, rc: Seq<Seq<u64>>) -> Seq<
    u64,
> {
    absorb_stream(s, seq![domain] + data, rc)
}

/// The little-endian bytes of words 0..3.
pub open spec fn rate_bytes(s: Seq<u64>) -> Seq<u8> {
    le_bytes_u64(s[0]) + le_bytes_u64(s[1]) + le_bytes_u64(s[2]) + le_bytes_u64(s[3])
}

/// The first `k` output blocks: the rate bytes, then those of the permuted state, and so on.
pub open spec fn squeeze_blocks(s: Seq<u64>, k: nat, rc: Seq<Seq<u64>>) -> Seq<u8>
    decreases k,
{
    if k == 0 {
        Seq::empty()
    } else {
        rate_bytes(s) + squeeze_blocks(spec_vinf_p(s, rc), (k - 1) as nat, rc)
    }
}

/// The state permuted `k` times.
pub open spec fn permute_times(s: Seq<u64>, k: nat, rc: Seq<Seq<u64>>) -> Seq<u64>
    decreases k,
{
    if k == 0 {
        s
    } else {
        spec_vinf_p(permute_times(s, (k - 1) as nat, rc), rc)
    }
}

/// The number of 32-byte blocks that `wanted` bytes take.
pub open spec fn blocks_for(wanted: nat) -> nat {
    if wanted % 32 == 0 {
        wanted / 32
    } else {
        wanted / 32 + 1
    }
}

/// The first `wanted` output bytes of the state.
pub open spec fn spec_squeeze(s: Seq<u64>, wanted: nat, rc: Seq<Seq<u64>>) -> Seq<u8> {
    squeeze_blocks(s, blocks_for(wanted), rc).take(wanted as int)
}

/// The state after `wanted` bytes were squeezed: permuted once between each two blocks.
pub open spec fn squeeze_state(s: Seq<u64>, wanted: nat, rc: Seq<Seq<u64>>) -> Seq<u64> {
    if wanted == 0 {
        s
    } else {
        permute_times(s, (blocks_for(wanted) - 1) as nat, rc)
    }
}

/// The digest of `data` under the round constants `rc`.
pub open spec fn spec_h_node(data: Seq<u8>, rc: Seq<Seq<u64>>) -> Seq<u8> {
    spec_squeeze(
        spec_absorb(zero_state(), DOMAIN_NODE, le_bytes_u64(data.len() as u64) + data, rc),
        32,
        rc,
    )
}

/// The digest of `data` under the standard round constants.
pub open spec fn spec_basic_hash(data: Seq<u8>) -> Seq<u8> {
    spec_h_node(data, spec_round_constants())
}

/// The first `n` bytes of the output stream of `data`.
pub open spec fn spec_xof(data: Seq<u8>, n: nat) -> Seq<u8> {
    spec_squeeze(spec_absorb(zero_state(), DOMAIN_FINAL, data, spec_round_constants()), n, spec_round_constants())
}

/// Builds the table of round constants.
pub fn gen_round_constants() -> (rc: [[u64; 8]; 12])
    ensures
        constants_view(&rc) == spec_round_constants(),
{
    let mut rc = [[0u64; 8]; 12];
    let mut r: usize = 0;
    while r < 12
        invariant
            0 <= r <= 12,
            forall|q: int, i: int| 0 <= q < r && 0 <= i < 8 ==> #[trigger] rc[q][i] == spec_rc(q, i),
        decreases 12 - r,
    {
        let mut row = [0u64; 8];
        let mut i: usize = 0;
        while i < 8
            invariant
                0 <= r < 12,
                0 <= i <= 8,
                forall|j: int| 0 <= j < i ==> #[trigger] row[j] == spec_rc(r as int, j),
            decreases 8 - i,
        {
            let mul = ((r as u128) * 0x9Fu128).wrapping_add(i as u128 + 1);
            let v128 = RC_SEED.wrapping_mul(mul);
            let low64 = v128 as u64;
            let mut val = low64;
            val ^= RC_XOR_CONST.wrapping_add(((r as u64) << 8) | (i as u64));
            row[i] = val;
            i += 1;
        }
        rc[r] = row;
        r += 1;
    }
    assert(constants_view(&rc) =~= spec_round_constants()) by {
        assert forall|q: int| 0 <= q < 12 implies #[trigger] constants_view(&rc)[q]
            =~= spec_round_constants()[q] by {
            assert forall|i: int| 0 <= i < 8 implies rc[q]@[i] == spec_rc(q, i) by {
                assert(rc[q][i] == spec_rc(q, i));
            }
        }
    }
    rc
}

proof fn lemma_squeeze_blocks_len(s: Seq<u64>, k: nat, rc: Seq<Seq<u64>>)
    ensures
        squeeze_blocks(s, k, rc).len() == 32 * k,
    decreases k,
{
    if k > 0 {
        lemma_squeeze_blocks_len(spec_vinf_p(s, rc), (k - 1) as nat, rc);
    }
}

proof fn lemma_squeeze_blocks_snoc(s: Seq<u64>, k: nat, rc: Seq<Seq<u64>>)
    ensures
        squeeze_blocks(s, k + 1, rc) == squeeze_blocks(s, k, rc) + rate_bytes(
            permute_times(s, k, rc),
        ),
    decreases k,
{
    if k == 0 {
        assert(squeeze_blocks(spec_vinf_p(s, rc), 0, rc) == Seq::<u8>::empty());
        assert(squeeze_blocks(s, 1, rc) =~= rate_bytes(s));
        assert(squeeze_blocks(s, 0, rc) + rate_bytes(s) =~= rate_bytes(s));
    } else {
        lemma_squeeze_blocks_snoc(spec_vinf_p(s, rc), (k - 1) as nat, rc);
        lemma_permute_times_front(s, (k - 1) as nat, rc);
        assert(squeeze_blocks(s, k + 1, rc) =~= squeeze_blocks(s, k, rc) + rate_bytes(
            permute_times(s, k, rc),
        ));
    }
}

proof fn lemma_permute_times_front(s: Seq<u64>, k: nat, rc: Seq<Seq<u64>>)
    ensures
        permute_times(spec_vinf_p(s, rc), k, rc) == permute_times(s, k + 1, rc),
    decreases k,
{
    reveal_with_fuel(permute_times, 2);
    if k > 0 {
        lemma_permute_times_front(s, (k - 1) as nat, rc);
    }
}

proof fn lemma_blocks_for(wanted: nat)
    ensures
        32 * blocks_for(wanted) >= wanted,
        wanted > 0 ==> 32 * (blocks_for(wanted) - 1) < wanted,
        wanted == 0 ==> blocks_for(wanted) == 0,
{
}

/// Builds the padded block of `stream[pos..end]`.
fn make_block(stream: &Vec<u8>, pos: usize, end: usize) -> (block: [u8; 32])
    requires
        pos <= end <= stream@.len(),
        end - pos <= 32,
    ensures
        block@ == pad_block(stream@.subrange(pos as int, end as int)),
{
    let mut block = [0u8; 32];
    let n = end - pos;
    let mut j: usize = 0;
    while j < n
        invariant
            n == end - pos,
            pos <= end <= stream@.len(),
            n <= 32,
            0 <= j <= n,
            forall|q: int| 0 <= q < j ==> block[q] == stream@[pos + q],
            forall|q: int| j <= q < 32 ==> block[q] == 0,
        decreases n - j,
    {
        block[j] = stream[pos + j];
        j += 1;
    }
    if n < 32 {
        block[n] = 1;
    }
    assert(block@ =~= pad_block(stream@.subrange(pos as int, end as int)));
    block
}

/// XORs `block` into the little-endian bytes of words 0..3.
fn xor_into(state: &mut [u64; 8], block: &[u8; 32])
    ensures
        final(state)@ == xor_block(old(state)@, block@),
{
    let ghost s0 = state@;
    let w0 = decode_u64_le(block, 0);
    let w1 = decode_u64_le(block, 8);
    let w2 = decode_u64_le(block, 16);
    let w3 = decode_u64_le(block, 24);
    state[0] = state[0] ^ w0;
    state[1] = state[1] ^ w1;
    state[2] = state[2] ^ w2;
    state[3] = state[3] ^ w3;
    assert(state@ =~= xor_block(s0, block@));
}

/// Absorbs `domain` followed by `data` into `state`.
pub fn absorb(state: &mut [u64; 8], domain: u8, data: &[u8], rc: &[[u64; 8]; 12])
    ensures
        final(state)@ == spec_absorb(old(state)@, domain, data@, constants_view(rc)),
{
    let ghost rcv = constants_view(rc);
    let ghost s0 = state@;
    let mut stream: Vec<u8> = Vec::new();
    stream.push(domain);
    append_bytes(&mut stream, data);
    assert(stream@ =~= seq![domain] + data@);
    let mut pos: usize = 0;
    assert(stream@.skip(0) =~= stream@);
    while pos < stream.len()
        invariant
            pos <= stream@.len(),
            stream@ == seq![domain] + data@,
            rcv == constants_view(rc),
            absorb_stream(state@, stream@.skip(pos as int), rcv) == absorb_stream(
                s0,
                stream@,
                rcv,
            ),
        decreases stream@.len() - pos,
    {
        let len = stream.len();
        let end = if len - pos < 32 {
            len
        } else {
            pos + 32
        };
        let ghost before = state@;
        let ghost rest = stream@.skip(pos as int);
        let block = make_block(&stream, pos, end);
        xor_into(state, &block);
        vinf_p(state, rc);
        proof {
            assert(rest.take(min_nat(32, rest.len()) as int) =~= stream@.subrange(
                pos as int,
                end as int,
            ));
            if rest.len() > 32 {
                assert(rest.skip(32) =~= stream@.skip(end as int));
            } else {
                assert(stream@.skip(end as int) =~= Seq::<u8>::empty());
            }
        }
        pos = end;
    }
}

/// Appends the little-endian bytes of words 0..3 to `out`.
fn append_rate_bytes(state: &[u64; 8], out: &mut Vec<u8>)
    ensures
        final(out)@ == old(out)@ + rate_bytes(state@),
{
    let ghost start = out@;
    append_bytes(out, &encode_u64_le(state[0]));
    append_bytes(out, &encode_u64_le(state[1]));
    append_bytes(out, &encode_u64_le(state[2]));
    append_bytes(out, &encode_u64_le(state[3]));
    assert(out@ =~= start + rate_bytes(state@));
}

/// Appends the first `wanted` output bytes of `state` to `out`.
pub fn squeeze(state: &mut [u64; 8], wanted: usize, rc: &[[u64; 8]; 12], out: &mut Vec<u8>)
    ensures
        final(out)@ == old(out)@ + spec_squeeze(old(state)@, wanted as nat, constants_view(rc)),
        final(state)@ == squeeze_state(old(state)@, wanted as nat, constants_view(rc)),
        spec_squeeze(old(state)@, wanted as nat, constants_view(rc)).len() == wanted,
{
    let ghost rcv = constants_view(rc);
    let ghost s0 = state@;
    let n = if wanted % 32 == 0 {
        wanted / 32
    } else {
        wanted / 32 + 1
    };
    let mut buf: Vec<u8> = Vec::new();
    let mut k: usize = 0;
    while k < n
        invariant
            n == blocks_for(wanted as nat),
            0 <= k <= n,
            rcv == constants_view(rc),
            buf@ == squeeze_blocks(s0, k as nat, rcv),
            k < n ==> state@ == permute_times(s0, k as nat, rcv),
            k == n && n > 0 ==> state@ == permute_times(s0, (n - 1) as nat, rcv),
            n == 0 ==> state@ == s0,
        decreases n - k,
    {
        proof {
            lemma_squeeze_blocks_snoc(s0, k as nat, rcv);
        }
        append_rate_bytes(state, &mut buf);
        if k + 1 < n {
            vinf_p(state, rc);
        }
        k += 1;
    }
    proof {
        lemma_squeeze_blocks_len(s0, n as nat, rcv);
        lemma_blocks_for(wanted as nat);
    }
    let ghost start = out@;
    let mut i: usize = 0;
    while i < wanted
        invariant
            0 <= i <= wanted,
            wanted <= buf@.len(),
            out@ == start + buf@.take(i as int),
        decreases wanted - i,
    {
        out.push(buf[i]);
        i += 1;
        assert(out@ =~= start + buf@.take(i as int));
    }
}

/// Digest of `data`: absorbs its 8-byte length and its bytes under `DOMAIN_NODE`,
/// then squeezes `NODE_DIGEST_BYTES` bytes.
pub fn h_node(data: &[u8], rc: &[[u64; 8]; 12]) -> (digest: [u8; 32])
    ensures
        digest@ == spec_h_node(data@, constants_view(rc)),
{
    let mut state = [0u64; 8];
    assert(state@ =~= zero_state());
    let mut input: Vec<u8> = Vec::new();
    append_bytes(&mut input, &encode_u64_le(data.len() as u64));
    append_bytes(&mut input, data);
    absorb(&mut state, DOMAIN_NODE, input.as_slice(), rc);
    let mut out: Vec<u8> = Vec::new();
    squeeze(&mut state, 32, rc, &mut out);
    let mut arr = [0u8; 32];
    let mut i: usize = 0;
    while i < 32
        invariant
            out@.len() == 32,
            0 <= i <= 32,
            forall|q: int| 0 <= q < i ==> arr[q] == out@[q],
        decreases 32 - i,
    {
        arr[i] = out[i];
        i += 1;
    }
    assert(arr@ =~= out@);
    arr
}

/// Digest of `data` under the standard round constants.
pub fn basic_hash(data: &[u8]) -> (digest: [u8; 32])
    ensures
        digest@ == spec_basic_hash(data@),
{
    let rc = gen_round_constants();
    h_node(data, &rc)
}

/// The first `n` bytes of the output stream of `data`: `data` is absorbed under
/// `DOMAIN_FINAL` into the zero state and `n` bytes are squeezed.
pub fn xof_bytes(data: &[u8], n: usize) -> (r: Result<Vec<u8>, Error>)
    ensures
        r matches Ok(v) && v@ == spec_xof(data@, n as nat),
{
    let rc = gen_round_constants();
    let mut state = [0u64; 8];
    assert(state@ =~= zero_state());
    absorb(&mut state, DOMAIN_FINAL, data, &rc);
    let mut out: Vec<u8> = Vec::new();
    squeeze(&mut state, n, &rc, &mut out);
    assert(out@ =~= spec_xof(data@, n as nat));
    Ok(out)
}

proof fn lemma_squeeze_blocks_prefix(s: Seq<u64>, k1: nat, k2: nat, rc: Seq<Seq<u64>>)
    requires
        k1 <= k2,
    ensures
        squeeze_blocks(s, k1, rc) == squeeze_blocks(s, k2, rc).take(32 * k1 as int),
    decreases k1,
{
    lemma_squeeze_blocks_len(s, k1, rc);
    lemma_squeeze_blocks_len(s, k2, rc);
    if k1 == 0 {
        assert(squeeze_blocks(s, k2, rc).take(0) =~= Seq::<u8>::empty());
    } else {
        let p = spec_vinf_p(s, rc);
        lemma_squeeze_blocks_prefix(p, (k1 - 1) as nat, (k2 - 1) as nat, rc);
        lemma_squeeze_blocks_len(p, (k1 - 1) as nat, rc);
        assert(rate_bytes(s).len() == 32);
        assert(squeeze_blocks(s, k1, rc) =~= squeeze_blocks(s, k2, rc).take(32 * k1 as int));
    }
}

/// The output stream does not depend on how much of it is asked for:
/// `n` bytes of it are the first `n` of any longer request, and exactly `n` bytes.
pub proof fn lemma_squeeze_prefix(s: Seq<u64>, n: nat, m: nat, rc: Seq<Seq<u64>>)
    requires
        n <= m,
    ensures
        spec_squeeze(s, n, rc).len() == n,
        spec_squeeze(s, n, rc) == spec_squeeze(s, m, rc).take(n as int),
{
    lemma_blocks_for(n);
    lemma_blocks_for(m);
    assert(blocks_for(n) <= blocks_for(m));
    lemma_squeeze_blocks_prefix(s, blocks_for(n), blocks_for(m), rc);
    lemma_squeeze_blocks_len(s, blocks_for(n), rc);
    lemma_squeeze_blocks_len(s, blocks_for(m), rc);
    assert(spec_squeeze(s, n, rc) =~= spec_squeeze(s, m, rc).take(n as int));
}

/// `xof_bytes(data, n)` is the first `n` bytes of `xof_bytes(data, m)` for `n <= m`.
pub proof fn lemma_xof_prefix(data: Seq<u8>, n: nat, m: nat)
    requires
        n <= m,
    ensures
        spec_xof(data, n).len() == n,
        spec_xof(data, n) == spec_xof(data, m).take(n as int),
{
    lemma_squeeze_prefix(
        spec_absorb(zero_state(), DOMAIN_FINAL, data, spec_round_constants()),
        n,
        m,
        spec_round_constants(),
    );
}

/// A digest is 32 bytes long.
pub proof fn lemma_h_node_len(data: Seq<u8>, rc: Seq<Seq<u64>>)
    ensures
        spec_h_node(data, rc).len() == 32,
{
    let st = spec_absorb(zero_state(), DOMAIN_NODE, le_bytes_u64(data.len() as u64) + data, rc);
    lemma_squeeze_prefix(st, 32, 32, rc);
}

/// The bytes that complete a stream of `len` bytes to whole blocks: `0x01` then zeros.
pub open spec fn padding(len: nat) -> Seq<u8> {
    seq![1u8] + Seq::new((31 - len % 32) as nat, |i: int| 0u8)
}

proof fn lemma_absorb_stream_padding(s: Seq<u64>, stream: Seq<u8>, rc: Seq<Seq<u64>>)
    requires
        stream.len() % 32 != 0,
    ensures
        absorb_stream(s, stream, rc) == absorb_stream(s, stream + padding(stream.len()), rc),
    decreases stream.len(),
{
    let t = stream + padding(stream.len());
    if stream.len() < 32 {
        assert(t.len() == 32);
        assert(t.take(32) =~= t);
        assert(stream.take(stream.len() as int) =~= stream);
        assert(pad_block(stream) =~= t);
    } else {
        assert(stream.len() > 32);
        assert(t.take(32) =~= stream.take(32));
        let rest = stream.skip(32);
        assert(rest.len() % 32 == stream.len() % 32);
        assert(t.skip(32) =~= rest + padding(rest.len()));
        let next = spec_vinf_p(xor_block(s, pad_block(stream.take(32))), rc);
        lemma_absorb_stream_padding(next, rest, rc);
    }
}

/// A short last block is absorbed as if the data went on with `0x01` and zeros up to
/// a whole block: appending that padding to the data changes nothing.
pub proof fn lemma_absorb_padding(s: Seq<u64>, domain: u8, data: Seq<u8>, rc: Seq<Seq<u64>>)
    requires
        (1 + data.len()) % 32 != 0,
    ensures
        spec_absorb(s, domain, data, rc) == spec_absorb(
            s,
            domain,
            data + padding(1 + data.len()),
            rc,
        ),
{
    let stream = seq![domain] + data;
    lemma_absorb_stream_padding(s, stream, rc);
    assert(seq![domain] + (data + padding(1 + data.len())) =~= stream + padding(stream.len()));
}

proof fn lemma_rate_bytes_len(s: Seq<u64>)
    ensures
        rate_bytes(s).len() == 32,
{
}

proof fn lemma_squeeze_blocks_index(s: Seq<u64>, k: nat, rc: Seq<Seq<u64>>)
    ensures
        squeeze_blocks(s, k, rc).len() == 32 * k,
        forall|i: int|
            0 <= i < 32 * k ==> #[trigger] squeeze_blocks(s, k, rc)[i] == rate_bytes(
                permute_times(s, (i / 32) as nat, rc),
            )[i % 32],
    decreases k,
{
    lemma_squeeze_blocks_len(s, k, rc);
    if k > 0 {
        let k1 = (k - 1) as nat;
        lemma_squeeze_blocks_index(s, k1, rc);
        lemma_squeeze_blocks_snoc(s, k1, rc);
        let last = rate_bytes(permute_times(s, k1, rc));
        lemma_rate_bytes_len(permute_times(s, k1, rc));
        assert forall|i: int| 0 <= i < 32 * k implies #[trigger] squeeze_blocks(s, k, rc)[i]
            == rate_bytes(permute_times(s, (i / 32) as nat, rc))[i % 32] by {
            if i < 32 * k1 {
                assert(squeeze_blocks(s, k, rc)[i] == squeeze_blocks(s, k1, rc)[i]);
            } else {
                assert(i / 32 == k1) by (nonlinear_arith)
                    requires
                        32 * k1 <= i < 32 * k1 + 32,
                ;
                assert(i % 32 == i - 32 * k1) by (nonlinear_arith)
                    requires
                        32 * k1 <= i < 32 * k1 + 32,
                ;
                assert(squeeze_blocks(s, k, rc)[i] == last[i - 32 * k1]);
            }
        }
    }
}

/// Byte `i` of the output stream is byte `i % 32` of the rate bytes of the state
/// permuted `i / 32` times: block `k` of the output is the rate of the `k`-times
/// permuted state, for every output length.
pub proof fn lemma_squeeze_bytes(s: Seq<u64>, n: nat, rc: Seq<Seq<u64>>)
    ensures
        spec_squeeze(s, n, rc).len() == n,
        forall|i: int|
            0 <= i < n ==> #[trigger] spec_squeeze(s, n, rc)[i] == rate_bytes(
                permute_times(s, (i / 32) as nat, rc),
            )[i % 32],
{
    lemma_blocks_for(n);
    lemma_squeeze_blocks_index(s, blocks_for(n), rc);
}

/// `xof_bytes(data, n)` is, byte for byte, the stream `rate(S) || rate(P(S)) ||
/// rate(P(P(S))) || ..` cut to `n` bytes, where `S` is the zero state after absorbing
/// `DOMAIN_FINAL` followed by `data` and `P` is the permutation.
pub proof fn lemma_xof_bytes(data: Seq<u8>, n: nat)
    ensures
        spec_xof(data, n).len() == n,
        forall|i: int|
            0 <= i < n ==> #[trigger] spec_xof(data, n)[i] == rate_bytes(
                permute_times(
                    absorb_stream(zero_state(), seq![DOMAIN_FINAL] + data, spec_round_constants()),
                    (i / 32) as nat,
                    spec_round_constants(),
                ),
            )[i % 32],
{
    let st = absorb_stream(zero_state(), seq![DOMAIN_FINAL] + data, spec_round_constants());
    lemma_squeeze_bytes(st, n, spec_round_constants());
}

/// The digest of `data` is the rate bytes of the zero state after absorbing the
/// stream `DOMAIN_NODE || le64(data.len()) || data`, every byte of `data` included:
/// any stream laid out that way gives the digest.
pub proof fn lemma_h_node_absorbs_all(data: Seq<u8>, stream: Seq<u8>, rc: Seq<Seq<u64>>)
    requires
        data.len() <= u64::MAX,
        stream.len() == 9 + data.len(),
        stream[0] == DOMAIN_NODE,
        stream.subrange(1, 9) == le_bytes_u64(data.len() as u64),
        stream.subrange(9, stream.len() as int) == data,
    ensures
        spec_h_node(data, rc) == rate_bytes(absorb_stream(zero_state(), stream, rc)),
{
    assert(stream =~= seq![DOMAIN_NODE] + (le_bytes_u64(data.len() as u64) + data)) by {
        assert forall|i: int| 0 <= i < stream.len() implies stream[i] == (seq![DOMAIN_NODE] + (
        le_bytes_u64(data.len() as u64) + data))[i] by {
            if 1 <= i < 9 {
                assert(stream[i] == stream.subrange(1, 9)[i - 1]);
            } else if i >= 9 {
                assert(stream[i] == stream.subrange(9, stream.len() as int)[i - 9]);
            }
        }
    }
    let st = absorb_stream(zero_state(), stream, rc);
    lemma_squeeze_bytes(st, 32, rc);
    lemma_rate_bytes_len(st);
    reveal_with_fuel(permute_times, 1);
    assert forall|i: int| 0 <= i < 32 implies #[trigger] spec_squeeze(st, 32, rc)[i]
        == rate_bytes(st)[i] by {
        assert(i / 32 == 0);
        assert(i % 32 == i);
    }
    assert(spec_squeeze(st, 32, rc) =~= rate_bytes(st));
}

/// Absorbing goes block by block: a full 32-byte block is XORed into the rate and the
/// state permuted, and a stream made of whole blocks followed by more bytes is
/// absorbed as the blocks and then the rest.
pub proof fn lemma_absorb_blocks(s: Seq<u64>, x: Seq<u8>, y: Seq<u8>, rc: Seq<Seq<u64>>)
    requires
        x.len() > 0,
        x.len() % 32 == 0,
    ensures
        x.len() == 32 ==> absorb_stream(s, x, rc) == spec_vinf_p(xor_block(s, x), rc),
        absorb_stream(s, x + y, rc) == absorb_stream(absorb_stream(s, x, rc), y, rc),
    decreases x.len(),
{
    let xy = x + y;
    assert(xy.take(32) =~= x.take(32));
    assert(pad_block(x.take(32)) == x.take(32));
    let next = spec_vinf_p(xor_block(s, x.take(32)), rc);
    if x.len() == 32 {
        assert(x.take(32) =~= x);
        if y.len() == 0 {
            assert(xy =~= x);
        } else {
            assert(xy.skip(32) =~= y);
        }
    } else {
        assert(xy.skip(32) =~= x.skip(32) + y);
        lemma_absorb_blocks(next, x.skip(32), y, rc);
    }
}

} // verus!
