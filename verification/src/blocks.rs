//! Regrouping a grid of equal blocks between the two orders attention uses:
//! token-major (all heads of a token together) and head-major (all tokens
//! of a head together).
use vstd::arithmetic::div_mod::lemma_fundamental_div_mod_converse;
use vstd::prelude::*;

verus! {

/// Position of item `d` of block (`row`, `col`) in a row-major grid `width`
/// blocks wide, with `dim` items per block.
pub open spec fn block_at(row: int, width: int, col: int, dim: int, d: int) -> int {
    (row * width + col) * dim + d
}

/// Item `i` of the regrouped grid: of block (`n`, `o`) of an `outer` ×
/// `inner` grid of `dim`-item blocks, where `i` lies in block `n * outer + o`
/// of the result.
pub open spec fn transposed_at<T>(s: Seq<T>, outer: int, inner: int, dim: int, i: int) -> T {
    let q = i / dim;
    let d = i % dim;
    let n = q / outer;
    let o = q % outer;
    s[(o * inner + n) * dim + d]
}

proof fn lemma_block_bounds(outer: int, inner: int, dim: int, i: int)
    requires
        outer >= 0 && inner >= 0 && dim >= 0,
        0 <= i < outer * inner * dim,
    ensures
        dim > 0 && outer > 0,
        0 <= ((i / dim) % outer) * inner <= outer * inner <= outer * inner * dim,
        0 <= ((i / dim) % outer * inner + (i / dim) / outer) * dim,
        0 <= (i % dim) < dim,
        0 <= (i / dim) % outer < outer,
        0 <= (i / dim) / outer < inner,
        0 <= ((i / dim) % outer) * inner + (i / dim) / outer < outer * inner,
        ((i / dim) % outer * inner + (i / dim) / outer) * dim + i % dim < outer * inner * dim,
{
    assert(dim > 0 && outer > 0 && inner > 0) by (nonlinear_arith)
        requires
            outer >= 0 && inner >= 0 && dim >= 0,
            0 <= i < outer * inner * dim,
    ;
    assert(outer * inner <= outer * inner * dim) by (nonlinear_arith)
        requires
            outer > 0 && inner > 0 && dim > 0,
    ;
    let q = i / dim;
    let d = i % dim;
    let n = q / outer;
    let o = q % outer;
    assert(i == dim * q + d && 0 <= d < dim) by (nonlinear_arith)
        requires
            dim > 0,
            q == i / dim,
            d == i % dim,
    ;
    assert(q == outer * n + o && 0 <= o < outer && q >= 0) by (nonlinear_arith)
        requires
            outer > 0,
            n == q / outer,
            o == q % outer,
            i >= 0,
            dim > 0,
            q == i / dim,
    ;
    assert(0 <= n < inner) by (nonlinear_arith)
        requires
            i == dim * q + d,
            0 <= d < dim,
            q == outer * n + o,
            0 <= o < outer,
            q >= 0,
            i < outer * inner * dim,
    ;
    assert(0 <= o * inner <= o * inner + n < outer * inner) by (nonlinear_arith)
        requires
            0 <= o < outer,
            0 <= n < inner,
    ;
    assert(0 <= (o * inner + n) * dim) by (nonlinear_arith)
        requires
            0 <= o * inner + n,
            dim > 0,
    ;
    assert((o * inner + n) * dim + d < outer * inner * dim) by (nonlinear_arith)
        requires
            0 <= o * inner + n < outer * inner,
            0 <= d < dim,
    ;
}

/// Regroups a row-major grid of `outer` × `inner` blocks of `dim` items
/// into the `inner` × `outer` grid of the same blocks: block (`o`, `n`)
/// moves to position (`n`, `o`). Going from token-major to head-major order
/// takes `outer` = tokens and `inner` = heads; the way back swaps the two.
pub fn transpose_blocks<T: Copy>(src: &[T], outer: usize, inner: usize, dim: usize) -> (r: Vec<T>)
    requires
        src@.len() == outer * inner * dim,
    ensures
        r@.len() == src@.len(),
        forall|n: int, o: int, d: int|
            0 <= n < inner && 0 <= o < outer && 0 <= d < dim ==> #[trigger] r@[block_at(
                n,
                outer as int,
                o,
                dim as int,
                d,
            )] == src@[block_at(o, inner as int, n, dim as int, d)],
{
    let len = src.len();
    let mut r: Vec<T> = Vec::new();
    let mut i: usize = 0;
    while i < len
        invariant
            len == src@.len() == outer * inner * dim,
            i <= len,
            r@ == Seq::new(
                i as nat,
                |j: int| transposed_at(src@, outer as int, inner as int, dim as int, j),
            ),
        decreases len - i,
    {
        proof {
            lemma_block_bounds(outer as int, inner as int, dim as int, i as int);
        }
        let q = i / dim;
        let d = i % dim;
        let n = q / outer;
        let o = q % outer;
        let at = (o * inner + n) * dim + d;
        r.push(src[at]);
        i = i + 1;
        assert(r@ =~= Seq::new(
            i as nat,
            |j: int| transposed_at(src@, outer as int, inner as int, dim as int, j),
        ));
    }
    proof {
        assert forall|n: int, o: int, d: int|
            0 <= n < inner && 0 <= o < outer && 0 <= d < dim implies #[trigger] r@[block_at(
                n,
                outer as int,
                o,
                dim as int,
                d,
            )] == src@[block_at(o, inner as int, n, dim as int, d)] by {
            let q = n * outer + o;
            let i = q * dim + d;
            assert(0 <= q < inner * outer && i < outer * inner * dim && 0 <= i) by (
            nonlinear_arith)
                requires
                    0 <= n < inner,
                    0 <= o < outer,
                    0 <= d < dim,
                    q == n * outer + o,
                    i == q * dim + d,
            ;
            lemma_fundamental_div_mod_converse(i, dim as int, q, d);
            lemma_fundamental_div_mod_converse(q, outer as int, n, o);
        }
    }
    r
}

} // verus!
