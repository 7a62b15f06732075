use vstd::prelude::*;

verus! {

/// The layers of a digest, compared one after another.
#[derive(Debug, Clone, Copy, PartialEq, Eq, Structural)]
pub enum Layer {
    X,
    Y,
    Z,
}

/// Byte lengths of the layers X, Y and Z; together they cover a digest.
pub const LAYER_SIZES: [usize; 3] = [8, 8, 16];

/// Index of `layer` in `LAYER_SIZES`.
pub open spec fn layer_index(layer: Layer) -> int {
    match layer {
        Layer::X => 0,
        Layer::Y => 1,
        Layer::Z => 2,
    }
}

/// First byte of `layer` within a digest.
pub open spec fn layer_start(layer: Layer) -> int {
    match layer {
        Layer::X => 0,
        Layer::Y => 8,
        Layer::Z => 16,
    }
}

/// One past the last byte of `layer` within a digest.
pub open spec fn layer_end(layer: Layer) -> int {
    match layer {
        Layer::X => 8,
        Layer::Y => 16,
        Layer::Z => 32,
    }
}

/// The bytes of `layer` in `h`.
pub open spec fn layer_bytes(h: Seq<u8>, layer: Layer) -> Seq<u8> {
    h.subrange(layer_start(layer), layer_end(layer))
}

/// `a` and `b` agree on `layer`.
pub open spec fn layer_matches(a: Seq<u8>, b: Seq<u8>, layer: Layer) -> bool {
    layer_bytes(a, layer) == layer_bytes(b, layer)
}

/// `a` and `b` agree on every layer from X up to and including `layer`.
pub open spec fn matches_up_to(a: Seq<u8>, b: Seq<u8>, layer: Layer) -> bool {
    forall|l: Layer| layer_index(l) <= layer_index(layer) ==> #[trigger] layer_matches(a, b, l)
}

fn layer_range(layer: Layer) -> (r: (usize, usize))
    ensures
        r.0 == layer_start(layer),
        r.1 == layer_end(layer),
{
    match layer {
        Layer::X => (0, LAYER_SIZES[0]),
        Layer::Y => (LAYER_SIZES[0], LAYER_SIZES[0] + LAYER_SIZES[1]),
        Layer::Z => (
            LAYER_SIZES[0] + LAYER_SIZES[1],
            LAYER_SIZES[0] + LAYER_SIZES[1] + LAYER_SIZES[2],
        ),
    }
}

/// The bytes of `layer` in `h`.
pub fn get_layer_slice(h: &[u8; 32], layer: Layer) -> (s: &[u8])
    ensures
        s@ == layer_bytes(h@, layer),
{
    let (start, end) = layer_range(layer);
    let hs: &[u8] = h.as_slice();
    &hs[start..end]
}

/// Whether `a` and `b` agree on `layer`.
pub fn partial_layer_match(a: &[u8; 32], b: &[u8; 32], layer: Layer) -> (r: bool)
    ensures
        r == layer_matches(a@, b@, layer),
{
    let (start, end) = layer_range(layer);
    let mut i = start;
    while i < end
        invariant
            start == layer_start(layer),
            end == layer_end(layer),
            start <= i <= end,
            forall|q: int| start <= q < i ==> a@[q] == b@[q],
        decreases end - i,
    {
        if a[i] != b[i] {
            assert(layer_bytes(a@, layer)[i - start] != layer_bytes(b@, layer)[i - start]);
            return false;
        }
        i += 1;
    }
    assert(layer_bytes(a@, layer) =~= layer_bytes(b@, layer));
    true
}

/// Whether `a` and `b` agree on every layer from X up to and including `layer`.
pub fn partial_match_up_to(a: &[u8; 32], b: &[u8; 32], layer: Layer) -> (r: bool)
    ensures
        r == matches_up_to(a@, b@, layer),
{
    let x = partial_layer_match(a, b, Layer::X);
    let r = match layer {
        Layer::X => x,
        Layer::Y => x && partial_layer_match(a, b, Layer::Y),
        Layer::Z => x && partial_layer_match(a, b, Layer::Y) && partial_layer_match(a, b, Layer::Z),
    };
    proof {
        if !r {
            if !x {
                assert(!layer_matches(a@, b@, Layer::X));
            } else if !layer_matches(a@, b@, Layer::Y) {
                assert(layer_index(Layer::Y) <= layer_index(layer));
            } else {
                assert(!layer_matches(a@, b@, Layer::Z));
            }
        } else {
            assert forall|l: Layer| layer_index(l) <= layer_index(layer) implies #[trigger] layer_matches(a@, b@, l) by {
                match l {
                    Layer::X => {},
                    Layer::Y => {},
                    Layer::Z => {},
                }
            }
        }
    }
    r
}

/// The layers cover the whole digest: two digests agree up to layer Z exactly when
/// they are equal, and agreeing up to a layer implies agreeing up to each earlier one.
pub proof fn lemma_layers_cover_digest(a: Seq<u8>, b: Seq<u8>)
    requires
        a.len() == 32,
        b.len() == 32,
    ensures
        matches_up_to(a, b, Layer::Z) <==> a == b,
        matches_up_to(a, b, Layer::Z) ==> matches_up_to(a, b, Layer::Y),
        matches_up_to(a, b, Layer::Y) ==> matches_up_to(a, b, Layer::X),
{
    if matches_up_to(a, b, Layer::Z) {
        assert(layer_matches(a, b, Layer::X));
        assert(layer_matches(a, b, Layer::Y));
        assert(layer_matches(a, b, Layer::Z));
        assert forall|i: int| 0 <= i < 32 implies a[i] == b[i] by {
            if i < 8 {
                assert(layer_bytes(a, Layer::X)[i] == layer_bytes(b, Layer::X)[i]);
            } else if i < 16 {
                assert(layer_bytes(a, Layer::Y)[i - 8] == layer_bytes(b, Layer::Y)[i - 8]);
            } else {
                assert(layer_bytes(a, Layer::Z)[i - 16] == layer_bytes(b, Layer::Z)[i - 16]);
            }
        }
        assert(a =~= b);
    }
    if a == b {
        assert forall|l: Layer| layer_index(l) <= layer_index(Layer::Z) implies #[trigger] layer_matches(
            a,
            b,
            l,
        ) by {}
    }
    if matches_up_to(a, b, Layer::Z) {
        assert forall|l: Layer| layer_index(l) <= layer_index(Layer::Y) implies #[trigger] layer_matches(
            a,
            b,
            l,
        ) by {}
    }
    if matches_up_to(a, b, Layer::Y) {
        assert forall|l: Layer| layer_index(l) <= layer_index(Layer::X) implies #[trigger] layer_matches(
            a,
            b,
            l,
        ) by {}
    }
}

/// Two digests agree up to a layer exactly when they agree on every byte before
/// the end of that layer: bytes 0..8 for X, 0..16 for Y, all 32 for Z.
pub proof fn lemma_matches_up_to_bytes(a: Seq<u8>, b: Seq<u8>, layer: Layer)
    requires
        a.len() == 32,
        b.len() == 32,
    ensures
        matches_up_to(a, b, layer) <==> (forall|i: int|
            0 <= i < (if layer == Layer::X {
                8int
            } else if layer == Layer::Y {
                16int
            } else {
                32int
            }) ==> #[trigger] a[i] == b[i]),
{
    let n: int = if layer == Layer::X {
        8
    } else if layer == Layer::Y {
        16
    } else {
        32
    };
    if matches_up_to(a, b, layer) {
        assert(layer_matches(a, b, Layer::X));
        assert forall|i: int| 0 <= i < n implies #[trigger] a[i] == b[i] by {
            if i < 8 {
                assert(layer_bytes(a, Layer::X)[i] == layer_bytes(b, Layer::X)[i]);
            } else if i < 16 {
                assert(layer_matches(a, b, Layer::Y));
                assert(layer_bytes(a, Layer::Y)[i - 8] == layer_bytes(b, Layer::Y)[i - 8]);
            } else {
                assert(layer_matches(a, b, Layer::Z));
                assert(layer_bytes(a, Layer::Z)[i - 16] == layer_bytes(b, Layer::Z)[i - 16]);
            }
        }
    }
    if forall|i: int| 0 <= i < n ==> #[trigger] a[i] == b[i] {
        assert forall|l: Layer| layer_index(l) <= layer_index(layer) implies #[trigger] layer_matches(
            a,
            b,
            l,
        ) by {
            assert(layer_bytes(a, l) =~= layer_bytes(b, l));
        }
    }
}

} // verus!
