use vstd::prelude::*;

verus! {

/// Rotation amounts of the four lane pairs.
pub const ROT: [u32; 4] = [32, 24, 16, 63];

/// Number of rounds of the permutation.
pub const R_P: usize = 12;

/// Size of a node digest in bytes.
pub const NODE_DIGEST_BYTES: usize = 32;

/// Left rotation of a 64-bit word by `n` bits (0 < n < 64).
pub open spec fn rotl(x: u64, n: u64) -> u64 {
    (x << n) | (x >> ((64 - n) as u64))
}

/// Right rotation of a 64-bit word by `n` bits (0 < n < 64).
pub open spec fn rotr(x: u64, n: u64) -> u64 {
    (x >> n) | (x << ((64 - n) as u64))
}

/// The rotation used for lane pair `i`, as `ROT` gives it.
pub open spec fn rot_amount(i: int) -> u64 {
    if i == 0 {
        32
    } else if i == 1 {
        24
    } else if i == 2 {
        16
    } else {
        63
    }
}

/// A table of round constants: `R_P` rows of 8 words.
pub open spec fn wf_constants(rc: Seq<Seq<u64>>) -> bool {
    &&& rc.len() == 12
    &&& forall|r: int| 0 <= r < 12 ==> (#[trigger] rc[r]).len() == 8
}

/// The round-constant table as a sequence of rows.
pub open spec fn constants_view(rc: &[[u64; 8]; 12]) -> Seq<Seq<u64>> {
    Seq::new(12, |r: int| rc[r]@)
}

/// Step 1 of a round: add the round constants word by word.
pub open spec fn add_constants(s: Seq<u64>, c: Seq<u64>) -> Seq<u64> {
    Seq::new(8, |i: int| s[i].wrapping_add(c[i]))
}

/// New first word of a lane pair.
pub open spec fn mix_a(a: u64, b: u64, c: u64) -> u64 {
    a.wrapping_add(b).wrapping_add(c)
}

/// New second word of a lane pair.
pub open spec fn mix_b(a: u64, b: u64, c: u64, r: u64) -> u64 {
    rotl(b ^ mix_a(a, b, c), r)
}

/// Step 2 of a round: mix word `i` with word `i + 4` for `i` in `0..4`.
pub open spec fn mix_lanes(s: Seq<u64>, c: Seq<u64>) -> Seq<u64> {
    Seq::new(
        8,
        |i: int|
            if i < 4 {
                mix_a(s[i], s[i + 4], c[i])
            } else {
                mix_b(s[i - 4], s[i], c[i - 4], rot_amount(i - 4))
            },
    )
}

/// Step 3 of a round: reorder the words as `[s0, s5, s2, s7, s4, s1, s6, s3]`.
pub open spec fn shuffle_words(s: Seq<u64>) -> Seq<u64> {
    seq![s[0], s[5], s[2], s[7], s[4], s[1], s[6], s[3]]
}

/// One diffusion step: `s[i] ^= s[(i + 3) % 8]`.
pub open spec fn diffuse_step(s: Seq<u64>, i: int) -> Seq<u64> {
    s.update(i, s[i] ^ s[(i + 3) % 8])
}

/// The first `n` diffusion steps, applied in order `0, 1, .., n - 1`.
pub open spec fn diffuse_upto(s: Seq<u64>, n: nat) -> Seq<u64>
    decreases n,
{
    if n == 0 {
        s
    } else {
        diffuse_step(diffuse_upto(s, (n - 1) as nat), n - 1)
    }
}

/// Step 4 of a round: the eight diffusion steps in order.
pub open spec fn diffuse(s: Seq<u64>) -> Seq<u64> {
    diffuse_upto(s, 8)
}

/// One round of the permutation with round constants `c`.
pub open spec fn spec_round(s: Seq<u64>, c: Seq<u64>) -> Seq<u64> {
    diffuse(shuffle_words(mix_lanes(add_constants(s, c), c)))
}

/// The first `n` rounds of the permutation.
pub open spec fn rounds_upto(s: Seq<u64>, rc: Seq<Seq<u64>>, n: nat) -> Seq<u64>
    decreases n,
{
    if n == 0 {
        s
    } else {
        spec_round(rounds_upto(s, rc, (n - 1) as nat), rc[n - 1])
    }
}

/// The permutation: all `R_P` rounds.
pub open spec fn spec_vinf_p(s: Seq<u64>, rc: Seq<Seq<u64>>) -> Seq<u64> {
    rounds_upto(s, rc, 12)
}

/// The diffusion written out word by word.
proof fn lemma_diffuse_explicit(s: Seq<u64>)
    requires
        s.len() == 8,
    ensures
        diffuse(s) == seq![
            s[0] ^ s[3],
            s[1] ^ s[4],
            s[2] ^ s[5],
            s[3] ^ s[6],
            s[4] ^ s[7],
            s[5] ^ (s[0] ^ s[3]),
            s[6] ^ (s[1] ^ s[4]),
            s[7] ^ (s[2] ^ s[5]),
        ],
{
    reveal_with_fuel(diffuse_upto, 9);
    assert(diffuse(s) =~= seq![
        s[0] ^ s[3],
        s[1] ^ s[4],
        s[2] ^ s[5],
        s[3] ^ s[6],
        s[4] ^ s[7],
        s[5] ^ (s[0] ^ s[3]),
        s[6] ^ (s[1] ^ s[4]),
        s[7] ^ (s[2] ^ s[5]),
    ]);
}

/// Step 1 undone: subtract the round constants word by word.
pub open spec fn sub_constants(s: Seq<u64>, c: Seq<u64>) -> Seq<u64> {
    Seq::new(8, |i: int| s[i].wrapping_sub(c[i]))
}

/// Recovers the second word of a lane pair from the mixed pair.
pub open spec fn unmix_b(na: u64, nb: u64, r: u64) -> u64 {
    rotr(nb, r) ^ na
}

/// Recovers the first word of a lane pair from the mixed pair.
pub open spec fn unmix_a(na: u64, nb: u64, c: u64, r: u64) -> u64 {
    na.wrapping_sub(c).wrapping_sub(unmix_b(na, nb, r))
}

/// Step 2 undone.
pub open spec fn unmix_lanes(t: Seq<u64>, c: Seq<u64>) -> Seq<u64> {
    Seq::new(
        8,
        |i: int|
            if i < 4 {
                unmix_a(t[i], t[i + 4], c[i], rot_amount(i))
            } else {
                unmix_b(t[i - 4], t[i], rot_amount(i - 4))
            },
    )
}

/// The diffusion steps `n - 1, .., 1, 0` in that order: step 4 undone when `n` is 8.
pub open spec fn undiffuse_down(s: Seq<u64>, n: nat) -> Seq<u64>
    decreases n,
{
    if n == 0 {
        s
    } else {
        undiffuse_down(diffuse_step(s, n - 1), (n - 1) as nat)
    }
}

/// Step 4 undone.
pub open spec fn undiffuse(s: Seq<u64>) -> Seq<u64> {
    undiffuse_down(s, 8)
}

/// One round undone.
pub open spec fn spec_round_inverse(t: Seq<u64>, c: Seq<u64>) -> Seq<u64> {
    sub_constants(unmix_lanes(shuffle_words(undiffuse(t)), c), c)
}

/// The last `n` of the first `n` rounds undone, the last one first.
pub open spec fn inverse_rounds(t: Seq<u64>, rc: Seq<Seq<u64>>, n: nat) -> Seq<u64>
    decreases n,
{
    if n == 0 {
        t
    } else {
        inverse_rounds(spec_round_inverse(t, rc[n - 1]), rc, (n - 1) as nat)
    }
}

/// The inverse of the permutation.
pub open spec fn spec_vinf_p_inverse(t: Seq<u64>, rc: Seq<Seq<u64>>) -> Seq<u64> {
    inverse_rounds(t, rc, 12)
}

proof fn lemma_undiffuse_explicit(s: Seq<u64>)
    requires
        s.len() == 8,
    ensures
        undiffuse(s) == ({
            let s7 = s[7] ^ s[2];
            let s6 = s[6] ^ s[1];
            let s5 = s[5] ^ s[0];
            let s4 = s[4] ^ s7;
            let s3 = s[3] ^ s6;
            let s2 = s[2] ^ s5;
            let s1 = s[1] ^ s4;
            let s0 = s[0] ^ s3;
            seq![s0, s1, s2, s3, s4, s5, s6, s7]
        }),
{
    reveal_with_fuel(undiffuse_down, 9);
    let s7 = s[7] ^ s[2];
    let s6 = s[6] ^ s[1];
    let s5 = s[5] ^ s[0];
    let s4 = s[4] ^ s7;
    let s3 = s[3] ^ s6;
    let s2 = s[2] ^ s5;
    let s1 = s[1] ^ s4;
    let s0 = s[0] ^ s3;
    let d7 = diffuse_step(s, 7);
    let d6 = diffuse_step(d7, 6);
    let d5 = diffuse_step(d6, 5);
    let d4 = diffuse_step(d5, 4);
    let d3 = diffuse_step(d4, 3);
    let d2 = diffuse_step(d3, 2);
    let d1 = diffuse_step(d2, 1);
    let d0 = diffuse_step(d1, 0);
    assert(d0 =~= seq![s0, s1, s2, s3, s4, s5, s6, s7]);
}

proof fn lemma_xor_cancel(x: u64, y: u64)
    ensures
        (x ^ y) ^ y == x,
        y ^ (y ^ x) == x,
        (y ^ x) ^ y == x,
        y ^ (x ^ y) == x,
{
    assert((x ^ y) ^ y == x) by (bit_vector);
    assert(y ^ (y ^ x) == x) by (bit_vector);
    assert((y ^ x) ^ y == x) by (bit_vector);
    assert(y ^ (x ^ y) == x) by (bit_vector);
}

/// A mixed lane pair gives back the pair it was mixed from.
proof fn lemma_unmix_mix(a: u64, b: u64, c: u64, r: u64)
    requires
        0 < r < 64,
    ensures
        unmix_b(mix_a(a, b, c), mix_b(a, b, c, r), r) == b,
        unmix_a(mix_a(a, b, c), mix_b(a, b, c, r), c, r) == a,
{
    let na = a.wrapping_add(b).wrapping_add(c);
    let x = b ^ na;
    assert(rotr(rotl(x, r), r) == x) by (bit_vector)
        requires
            0 < r < 64,
    ;
    lemma_xor_cancel(b, na);
    assert(na.wrapping_sub(c).wrapping_sub(b) == a) by (bit_vector)
        requires
            na == a.wrapping_add(b).wrapping_add(c),
    ;
}

/// A lane pair recovered from any pair mixes back to it.
proof fn lemma_mix_unmix(na: u64, nb: u64, c: u64, r: u64)
    requires
        0 < r < 64,
    ensures
        mix_a(unmix_a(na, nb, c, r), unmix_b(na, nb, r), c) == na,
        mix_b(unmix_a(na, nb, c, r), unmix_b(na, nb, r), c, r) == nb,
{
    let b = rotr(nb, r) ^ na;
    let a = na.wrapping_sub(c).wrapping_sub(b);
    assert(a.wrapping_add(b).wrapping_add(c) == na) by (bit_vector)
        requires
            a == na.wrapping_sub(c).wrapping_sub(b),
    ;
    lemma_xor_cancel(rotr(nb, r), na);
    assert(rotl(rotr(nb, r), r) == nb) by (bit_vector)
        requires
            0 < r < 64,
    ;
}

proof fn lemma_round_inverse(s: Seq<u64>, c: Seq<u64>)
    requires
        s.len() == 8,
        c.len() == 8,
    ensures
        spec_round_inverse(spec_round(s, c), c) == s,
        spec_round(spec_round_inverse(s, c), c) == s,
{
    // forward then backward
    let added = add_constants(s, c);
    let mixed = mix_lanes(added, c);
    let sh = shuffle_words(mixed);
    lemma_diffuse_explicit(sh);
    lemma_undiffuse_explicit(diffuse(sh));
    assert forall|i: int| 0 <= i < 8 implies (#[trigger] undiffuse(diffuse(sh))[i]) == sh[i] by {
        lemma_xor_cancel(sh[0], sh[3]);
        lemma_xor_cancel(sh[1], sh[4]);
        lemma_xor_cancel(sh[2], sh[5]);
        lemma_xor_cancel(sh[3], sh[6]);
        lemma_xor_cancel(sh[4], sh[7]);
        lemma_xor_cancel(sh[5], sh[0] ^ sh[3]);
        lemma_xor_cancel(sh[6], sh[1] ^ sh[4]);
        lemma_xor_cancel(sh[7], sh[2] ^ sh[5]);
    }
    assert(undiffuse(diffuse(sh)) =~= sh);
    assert(shuffle_words(sh) =~= mixed);
    assert forall|i: int| 0 <= i < 8 implies #[trigger] unmix_lanes(mixed, c)[i] == added[i] by {
        let j = if i < 4 { i } else { i - 4 };
        lemma_unmix_mix(added[j], added[j + 4], c[j], rot_amount(j));
    }
    assert(unmix_lanes(mixed, c) =~= added);
    assert forall|i: int| 0 <= i < 8 implies #[trigger] sub_constants(added, c)[i] == s[i] by {
        let x = s[i];
        let y = c[i];
        assert(x.wrapping_add(y).wrapping_sub(y) == x) by (bit_vector);
    }
    assert(sub_constants(added, c) =~= s);
    // backward then forward
    lemma_undiffuse_explicit(s);
    let ud = undiffuse(s);
    let ush = shuffle_words(ud);
    let um = unmix_lanes(ush, c);
    let sc = sub_constants(um, c);
    assert forall|i: int| 0 <= i < 8 implies #[trigger] add_constants(sc, c)[i] == um[i] by {
        let x = um[i];
        let y = c[i];
        assert(x.wrapping_sub(y).wrapping_add(y) == x) by (bit_vector);
    }
    assert(add_constants(sc, c) =~= um);
    assert forall|i: int| 0 <= i < 8 implies #[trigger] mix_lanes(um, c)[i] == ush[i] by {
        let j = if i < 4 { i } else { i - 4 };
        lemma_mix_unmix(ush[j], ush[j + 4], c[j], rot_amount(j));
    }
    assert(mix_lanes(um, c) =~= ush);
    assert(shuffle_words(ush) =~= ud);
    lemma_undiffuse_explicit(s);
    lemma_diffuse_explicit(ud);
    assert forall|i: int| 0 <= i < 8 implies (#[trigger] diffuse(ud)[i]) == s[i] by {
        let s7 = s[7] ^ s[2];
        let s6 = s[6] ^ s[1];
        let s5 = s[5] ^ s[0];
        let s4 = s[4] ^ s7;
        let s3 = s[3] ^ s6;
        lemma_xor_cancel(s[0], s3);
        lemma_xor_cancel(s[1], s4);
        lemma_xor_cancel(s[2], s5);
        lemma_xor_cancel(s[3], s6);
        lemma_xor_cancel(s[4], s7);
        lemma_xor_cancel(s[5], s[0]);
        lemma_xor_cancel(s[6], s[1]);
        lemma_xor_cancel(s[7], s[2]);
    }
    assert(diffuse(ud) =~= s);
}

proof fn lemma_round_len(s: Seq<u64>, c: Seq<u64>)
    requires
        s.len() == 8,
    ensures
        spec_round(s, c).len() == 8,
        spec_round_inverse(s, c).len() == 8,
{
    lemma_diffuse_explicit(shuffle_words(mix_lanes(add_constants(s, c), c)));
    lemma_undiffuse_explicit(s);
}

proof fn lemma_rounds_len(s: Seq<u64>, rc: Seq<Seq<u64>>, n: nat)
    requires
        s.len() == 8,
    ensures
        rounds_upto(s, rc, n).len() == 8,
        inverse_rounds(s, rc, n).len() == 8,
    decreases n,
{
    if n > 0 {
        lemma_rounds_len(s, rc, (n - 1) as nat);
        lemma_round_len(rounds_upto(s, rc, (n - 1) as nat), rc[n - 1]);
        lemma_round_len(s, rc[n - 1]);
        lemma_rounds_len(spec_round_inverse(s, rc[n - 1]), rc, (n - 1) as nat);
    }
}

proof fn lemma_inverse_rounds(s: Seq<u64>, rc: Seq<Seq<u64>>, n: nat)
    requires
        s.len() == 8,
        wf_constants(rc),
        n <= 12,
    ensures
        inverse_rounds(rounds_upto(s, rc, n), rc, n) == s,
        rounds_upto(inverse_rounds(s, rc, n), rc, n) == s,
    decreases n,
{
    if n > 0 {
        let prev = rounds_upto(s, rc, (n - 1) as nat);
        lemma_rounds_len(s, rc, (n - 1) as nat);
        lemma_round_inverse(prev, rc[n - 1]);
        lemma_inverse_rounds(s, rc, (n - 1) as nat);
        let t = spec_round_inverse(s, rc[n - 1]);
        lemma_round_len(s, rc[n - 1]);
        lemma_inverse_rounds(t, rc, (n - 1) as nat);
        lemma_round_inverse(s, rc[n - 1]);
    }
}

/// `vinf_p` is a permutation of the 8-word states: `spec_vinf_p_inverse`
/// undoes it, and it undoes `spec_vinf_p_inverse`, for every round-constant table.
pub proof fn lemma_vinf_p_bijective(s: Seq<u64>, rc: Seq<Seq<u64>>)
    requires
        s.len() == 8,
        wf_constants(rc),
    ensures
        spec_vinf_p(s, rc).len() == 8,
        spec_vinf_p_inverse(spec_vinf_p(s, rc), rc) == s,
        spec_vinf_p(spec_vinf_p_inverse(s, rc), rc) == s,
{
    lemma_rounds_len(s, rc, 12);
    lemma_inverse_rounds(s, rc, 12);
}

/// Two states that the permutation maps to the same state are the same state.
pub proof fn lemma_vinf_p_injective(s1: Seq<u64>, s2: Seq<u64>, rc: Seq<Seq<u64>>)
    requires
        s1.len() == 8,
        s2.len() == 8,
        wf_constants(rc),
        spec_vinf_p(s1, rc) == spec_vinf_p(s2, rc),
    ensures
        s1 == s2,
{
    lemma_vinf_p_bijective(s1, rc);
    lemma_vinf_p_bijective(s2, rc);
}

fn rotl_exec(x: u64, n: u32) -> (r: u64)
    requires
        0 < n < 64,
    ensures
        r == rotl(x, n as u64),
{
    (x << n) | (x >> (64 - n))
}

/// Mixes one lane pair.
fn mix_pair(a: u64, b: u64, c: u64, rot: u32) -> (r: (u64, u64))
    requires
        0 < rot < 64,
    ensures
        r.0 == mix_a(a, b, c),
        r.1 == mix_b(a, b, c, rot as u64),
{
    let na = a.wrapping_add(b).wrapping_add(c);
    let nb = rotl_exec(b ^ na, rot);
    (na, nb)
}

/// Applies one round to `state`.
fn round(state: &mut [u64; 8], c: &[u64; 8])
    ensures
        final(state)@ == spec_round(old(state)@, c@),
{
    let s = *state;
    let t0 = s[0].wrapping_add(c[0]);
    let t1 = s[1].wrapping_add(c[1]);
    let t2 = s[2].wrapping_add(c[2]);
    let t3 = s[3].wrapping_add(c[3]);
    let t4 = s[4].wrapping_add(c[4]);
    let t5 = s[5].wrapping_add(c[5]);
    let t6 = s[6].wrapping_add(c[6]);
    let t7 = s[7].wrapping_add(c[7]);
    let (a0, b0) = mix_pair(t0, t4, c[0], ROT[0]);
    let (a1, b1) = mix_pair(t1, t5, c[1], ROT[1]);
    let (a2, b2) = mix_pair(t2, t6, c[2], ROT[2]);
    let (a3, b3) = mix_pair(t3, t7, c[3], ROT[3]);
    let u = [a0, b1, a2, b3, b0, a1, b2, a3];
    let d0 = u[0] ^ u[3];
    let d1 = u[1] ^ u[4];
    let d2 = u[2] ^ u[5];
    let d3 = u[3] ^ u[6];
    let d4 = u[4] ^ u[7];
    let d5 = u[5] ^ d0;
    let d6 = u[6] ^ d1;
    let d7 = u[7] ^ d2;
    *state = [d0, d1, d2, d3, d4, d5, d6, d7];
    proof {
        let added = add_constants(s@, c@);
        let mixed = mix_lanes(added, c@);
        assert(mixed =~= seq![a0, a1, a2, a3, b0, b1, b2, b3]);
        assert(shuffle_words(mixed) =~= u@);
        lemma_diffuse_explicit(u@);
        assert(state@ =~= spec_round(s@, c@));
    }
}

/// The VINF permutation: `R_P` rounds over an 8-word state.
pub fn vinf_p(state: &mut [u64; 8], rc: &[[u64; 8]; 12])
    ensures
        final(state)@ == spec_vinf_p(old(state)@, constants_view(rc)),
{
    let ghost s0 = state@;
    let mut r: usize = 0;
    while r < 12
        invariant
            0 <= r <= 12,
            state@ == rounds_upto(s0, constants_view(rc), r as nat),
        decreases 12 - r,
    {
        round(state, &rc[r]);
        r += 1;
    }
}

} // verus!
