//! Rounding to multiples.

use vstd::arithmetic::div_mod::{
    lemma_fundamental_div_mod, lemma_fundamental_div_mod_converse, lemma_mod_multiples_basic,
};
use vstd::prelude::*;

verus! {

/// The least multiple of `align` that is not below `val`.
pub open spec fn aligned_up(val: int, align: int) -> int {
    if val % align == 0 {
        val
    } else {
        val - val % align + align
    }
}

/// The least number of pieces of size `piece` that hold `len`.
pub open spec fn pieces_for(len: int, piece: int) -> int {
    aligned_up(len, piece) / piece
}

/// The smaller of two numbers.
pub open spec fn smaller(a: int, b: int) -> int {
    if a <= b {
        a
    } else {
        b
    }
}

/// Align value up to next multiple of alignment.
pub fn align_up(val: usize, align: usize) -> (aligned: usize)
    requires
        align > 0,
        aligned_up(val as int, align as int) <= usize::MAX,
    ensures
        aligned == aligned_up(val as int, align as int),
{
    let over: usize = val % align;
    assert(over <= val) by (nonlinear_arith)
        requires
            over == val % align,
            align > 0,
    ;
    if over == 0 {
        val
    } else {
        val - over + align
    }
}

/// Divides, rounding the quotient up.
pub fn div_ceil(len: usize, piece: usize) -> (pieces: usize)
    requires
        piece > 0,
    ensures
        pieces == pieces_for(len as int, piece as int),
{
    proof {
        law_aligned_up_is_least_multiple(len as int, piece as int);
        lemma_pieces_times_piece(len as int, piece as int);
        lemma_fundamental_div_mod(len as int, piece as int);
        let q = len as int / piece as int;
        if len % piece == 0 {
            lemma_fundamental_div_mod_converse(len as int, piece as int, q, 0);
        } else {
            assert(aligned_up(len as int, piece as int) == (q + 1) * piece) by (nonlinear_arith)
                requires
                    aligned_up(len as int, piece as int) == len - len % piece + piece,
                    len == piece * q + len % piece,
            ;
            lemma_fundamental_div_mod_converse(
                aligned_up(len as int, piece as int),
                piece as int,
                q + 1,
                0,
            );
            assert(q + 1 <= len) by (nonlinear_arith)
                requires
                    len == piece * q + len % piece,
                    len % piece > 0,
                    piece > 0,
                    q >= 0,
            ;
        }
    }
    let whole: usize = len / piece;
    if len % piece == 0 {
        whole
    } else {
        whole + 1
    }
}

/// The smaller of two sizes.
pub fn min_usize(a: usize, b: usize) -> (m: usize)
    ensures
        m == smaller(a as int, b as int),
{
    if a <= b {
        a
    } else {
        b
    }
}

/// Rounding up gives a multiple of the alignment that is at least the value, and no
/// smaller multiple is.
pub proof fn law_aligned_up_is_least_multiple(val: int, align: int)
    requires
        align > 0,
    ensures
        aligned_up(val, align) % align == 0,
        val <= aligned_up(val, align) < val + align,
        forall|m: int| val <= m && #[trigger] (m % align) == 0 ==> aligned_up(val, align) <= m,
{
    let q = val / align;
    lemma_fundamental_div_mod(val, align);
    if val % align != 0 {
        assert(aligned_up(val, align) == (q + 1) * align) by (nonlinear_arith)
            requires
                aligned_up(val, align) == val - val % align + align,
                val == align * q + val % align,
        ;
        lemma_mod_multiples_basic(q + 1, align);
    }
    assert forall|m: int| val <= m && #[trigger] (m % align) == 0 implies aligned_up(val, align)
        <= m by {
        if val % align != 0 && m < aligned_up(val, align) {
            let k = m / align;
            lemma_fundamental_div_mod(m, align);
            assert(k > q && k < q + 1) by (nonlinear_arith)
                requires
                    align > 0,
                    m == align * k,
                    val == align * q + val % align,
                    0 < val % align < align,
                    val <= m < (q + 1) * align,
            ;
        }
    }
}

/// Rounding up again changes nothing.
pub proof fn law_aligned_up_is_idempotent(val: int, align: int)
    requires
        align > 0,
    ensures
        aligned_up(aligned_up(val, align), align) == aligned_up(val, align),
{
    law_aligned_up_is_least_multiple(val, align);
}

/// Rounding up keeps the order of values.
pub proof fn law_aligned_up_is_monotone(a: int, b: int, align: int)
    requires
        align > 0,
        a <= b,
    ensures
        aligned_up(a, align) <= aligned_up(b, align),
{
    law_aligned_up_is_least_multiple(a, align);
    law_aligned_up_is_least_multiple(b, align);
}

/// As many pieces as are needed, laid end to end, are the length rounded up to a piece.
pub proof fn lemma_pieces_times_piece(len: int, piece: int)
    requires
        piece > 0,
        len >= 0,
    ensures
        pieces_for(len, piece) * piece == aligned_up(len, piece),
        pieces_for(len, piece) >= 0,
{
    law_aligned_up_is_least_multiple(len, piece);
    lemma_fundamental_div_mod(aligned_up(len, piece), piece);
    assert(pieces_for(len, piece) * piece == piece * pieces_for(len, piece)) by (nonlinear_arith);
    assert(pieces_for(len, piece) >= 0) by (nonlinear_arith)
        requires
            aligned_up(len, piece) == piece * pieces_for(len, piece),
            aligned_up(len, piece) >= 0,
            piece > 0,
    ;
}

/// The smaller of two numbers is one of them, and exceeds neither.
pub proof fn law_smaller_is_least(a: int, b: int)
    ensures
        smaller(a, b) <= a,
        smaller(a, b) <= b,
        smaller(a, b) == a || smaller(a, b) == b,
{
}

/// So many pieces hold a length, and one fewer does not.
pub proof fn law_pieces_are_just_enough(len: int, piece: int)
    requires
        len >= 0,
        piece > 0,
    ensures
        len <= pieces_for(len, piece) * piece,
        pieces_for(len, piece) * piece < len + piece,
{
    lemma_pieces_times_piece(len, piece);
    law_aligned_up_is_least_multiple(len, piece);
}

} // verus!
