//! Finds the view matrix of a module by the geometry that only a projection
//! matrix has.
//!
//! The matrix is sixteen single-precision numbers in the writable data. Which
//! blocks are plausible numbers, and what follows from the answers, is decided
//! here; whether sixteen numbers have the geometry of a projection is asked of
//! the caller. A module with two such blocks gives none: one of them is a copy,
//! and nothing says which.

use crate::analysis::read::{le4, le_byte, u32_le_at};
use vstd::arithmetic::power2::{
    lemma2_to64, lemma_pow2_adds, lemma_pow2_pos, lemma_pow2_strictly_increases, pow2,
};
use vstd::prelude::*;

verus! {

/// The bits of a finite number of magnitude up to a million.
pub open spec fn plausible_bits(bits: u32) -> bool {
    bits % 0x8000_0000 <= 0x4974_2400
}

/// The exponent field of a single-precision number.
pub open spec fn exponent_of(bits: u32) -> int {
    bits as int / 0x80_0000 % 0x100
}

/// The fraction field of a single-precision number.
pub open spec fn fraction_of(bits: u32) -> int {
    bits as int % 0x80_0000
}

/// The magnitude of a finite single-precision number in units of its smallest
/// one, which is two to the power of -149. The sign is the highest bit.
pub open spec fn magnitude_of(bits: u32) -> int {
    let e = exponent_of(bits);
    if e == 0 {
        fraction_of(bits)
    } else {
        (0x80_0000 + fraction_of(bits)) * pow2((e - 1) as nat)
    }
}

/// A number is plausible exactly where it is finite and its magnitude is at most
/// a million.
pub proof fn lemma_plausible(bits: u32)
    ensures
        plausible_bits(bits) <==> exponent_of(bits) < 255 && magnitude_of(bits) <= 1_000_000 * pow2(
            149,
        ),
{
    let e = exponent_of(bits);
    let f = fraction_of(bits);
    let unit = pow2(145) as int;
    assert(bits % 0x8000_0000 == e * 0x80_0000 + f);
    lemma_pow2_adds(145, 4);
    lemma_pow2_pos(145);
    assert(pow2(4) == 16) by {
        lemma2_to64();
    }
    assert(1_000_000 * pow2(149) == 16_000_000 * unit) by (nonlinear_arith)
        requires
            pow2(149) == unit * 16,
    ;
    if e == 0 {
        assert(f <= 16_000_000 * unit) by (nonlinear_arith)
            requires
                f < 0x80_0000,
                unit > 0,
        ;
    } else if e == 146 {
        let m = 0x80_0000 + f;
        assert(m <= 16_000_000 <==> m * unit <= 16_000_000 * unit) by (nonlinear_arith)
            requires
                unit > 0,
        ;
    } else if e < 146 {
        let scale = pow2((e - 1) as nat) as int;
        lemma_pow2_pos((e - 1) as nat);
        lemma_pow2_adds(1, 144);
        if e - 1 < 144 {
            lemma_pow2_strictly_increases((e - 1) as nat, 144);
        }
        assert(pow2(1) == 2) by {
            lemma2_to64();
        }
        let half = pow2(144) as int;
        assert(unit == 2 * half);
        assert(scale <= half);
        assert((0x80_0000 + f) * scale <= 16_000_000 * unit) by (nonlinear_arith)
            requires
                0 <= f < 0x80_0000,
                0 < scale <= half,
                unit == 2 * half,
        ;
    } else {
        let scale = pow2((e - 1) as nat) as int;
        lemma_pow2_adds(1, 145);
        assert(pow2(1) == 2) by {
            lemma2_to64();
        }
        if e - 1 > 146 {
            lemma_pow2_strictly_increases(146, (e - 1) as nat);
        }
        assert(scale >= 2 * unit);
        assert((0x80_0000 + f) * scale > 16_000_000 * unit) by (nonlinear_arith)
            requires
                0 <= f,
                unit > 0,
                scale >= 2 * unit,
        ;
    }
}

/// The sixteen numbers of a block, as the bits of their IEEE 754 form.
pub open spec fn block_bits(image: Seq<u8>, offset: int) -> Seq<u32> {
    Seq::new(16, |i: int| le4(image, offset + 4 * i) as u32)
}

/// A block of plausible numbers.
pub open spec fn is_float_block(image: Seq<u8>, offset: int) -> bool {
    forall|i: int| 0 <= i < 16 ==> plausible_bits(#[trigger] block_bits(image, offset)[i])
}

/// The sixteen numbers of a block, as the bits of their IEEE 754 form, if all
/// of them are plausible.
pub fn floats(image: &[u8], offset: usize) -> (bits: Option<Vec<u32>>)
    requires
        offset + 64 <= image@.len(),
    ensures
        match bits {
            Some(list) => is_float_block(image@, offset as int) && list@ == block_bits(
                image@,
                offset as int,
            ),
            None => !is_float_block(image@, offset as int),
        },
{
    let size: usize = image.len();
    let ghost want = block_bits(image@, offset as int);
    let mut list: Vec<u32> = Vec::new();
    let mut i: usize = 0;
    while i < 16
        invariant
            size == image@.len(),
            offset + 64 <= size,
            i <= 16,
            want == block_bits(image@, offset as int),
            list@ == want.subrange(0, i as int),
            forall|k: int| 0 <= k < i ==> plausible_bits(#[trigger] want[k]),
        decreases 16 - i,
    {
        match u32_le_at(image, offset + 4 * i) {
            Some(bits) => {
                assert(bits == want[i as int]);
                if bits % 0x8000_0000 > 0x4974_2400 {
                    assert(!plausible_bits(want[i as int]));
                    return None;
                }
                list.push(bits);
            },
            None => {
                return None;
            },
        }
        i = i + 1;
        assert(list@ =~= want.subrange(0, i as int));
    }
    assert(want.subrange(0, 16) =~= want);
    Some(list)
}

/// The same numbers with rows and columns exchanged.
pub open spec fn transposed(bits: Seq<u32>) -> Seq<u32> {
    Seq::new(16, |i: int| bits[4 * (i % 4) + i / 4])
}

fn transpose(bits: &Vec<u32>) -> (out: Vec<u32>)
    requires
        bits@.len() == 16,
    ensures
        out@ == transposed(bits@),
{
    let mut out: Vec<u32> = Vec::new();
    let mut i: usize = 0;
    while i < 16
        invariant
            bits@.len() == 16,
            i <= 16,
            out@ == transposed(bits@).subrange(0, i as int),
        decreases 16 - i,
    {
        out.push(bits[4 * (i % 4) + i / 4]);
        i = i + 1;
        assert(out@ =~= transposed(bits@).subrange(0, i as int));
    }
    assert(out@ =~= transposed(bits@));
    out
}

/// A block can stand at an offset of a range.
pub open spec fn block_in(len: int, range: (u64, u64), offset: int) -> bool {
    &&& range.0 <= offset
    &&& offset % 4 == 0
    &&& offset + 64 <= range.0 + range.1
    &&& offset + 64 <= len
}

/// A block can stand at an offset of one of the ranges.
pub open spec fn is_block(len: int, ranges: Seq<(u64, u64)>, offset: int) -> bool {
    exists|r: int| 0 <= r < ranges.len() && block_in(len, #[trigger] ranges[r], offset)
}

/// `fits` can answer so on sixteen numbers.
pub open spec fn answered<F: Fn(Vec<u32>) -> bool>(bits: Seq<u32>, fits: F, yes: bool) -> bool {
    exists|list: Vec<u32>| list@ == bits && #[trigger] call_ensures(fits, (list,), yes)
}

/// The answer on one block: no where its numbers are not plausible, else
/// whether they fit as they stand or with rows and columns exchanged.
pub open spec fn answer<F: Fn(Vec<u32>) -> bool>(image: Seq<u8>, offset: int, fits: F, yes: bool) -> bool {
    let bits = block_bits(image, offset);
    if !is_float_block(image, offset) {
        !yes
    } else if yes {
        answered(bits, fits, true) || answered(transposed(bits), fits, true)
    } else {
        answered(bits, fits, false) && answered(transposed(bits), fits, false)
    }
}

/// The offsets at which a block fits: one answer on each offset of the ranges
/// at which a block can stand.
pub open spec fn judged<F: Fn(Vec<u32>) -> bool>(
    image: Seq<u8>,
    ranges: Seq<(u64, u64)>,
    fits: F,
    hits: Set<int>,
) -> bool {
    forall|offset: int|
        if is_block(image.len() as int, ranges, offset) {
            answer(image, offset, fits, #[trigger] hits.contains(offset))
        } else {
            !hits.contains(offset)
        }
}

/// An offset at which a block fits, as far as it lies in the address space.
pub open spec fn hit_at(base: u64, hits: Set<int>, offset: int) -> bool {
    hits.contains(offset) && base + offset <= u64::MAX
}

/// The address of the only offset at which a block fits; none where there is
/// no such offset, or a second one.
pub open spec fn only_hit(base: u64, hits: Set<int>, found: Option<u64>) -> bool {
    match found {
        Some(va) => {
            &&& hit_at(base, hits, va - base)
            &&& forall|other: int| #[trigger] hit_at(base, hits, other) ==> other == va - base
        },
        None => forall|offset: int| #[trigger]
            hit_at(base, hits, offset) ==> exists|other: int|
                other != offset && #[trigger] hit_at(base, hits, other),
    }
}

/// The address is that of the only block whose numbers are plausible and fit.
pub open spec fn matrix_in<F: Fn(Vec<u32>) -> bool>(
    image: Seq<u8>,
    base: u64,
    ranges: Seq<(u64, u64)>,
    fits: F,
    found: Option<u64>,
) -> bool {
    exists|hits: Set<int>| #[trigger]
        judged(image, ranges, fits, hits) && only_hit(base, hits, found)
}

proof fn lemma_same_answer<F: Fn(Vec<u32>) -> bool>(a: Seq<u8>, b: Seq<u8>, offset: int, fits: F, yes: bool)
    requires
        block_bits(b, offset) == transposed(block_bits(a, offset)),
    ensures
        answer(a, offset, fits, yes) == answer(b, offset, fits, yes),
{
    let x = block_bits(a, offset);
    let y = block_bits(b, offset);
    assert(transposed(y) =~= x);
    if is_float_block(a, offset) {
        assert forall|i: int| 0 <= i < 16 implies plausible_bits(#[trigger] y[i]) by {
            assert(plausible_bits(x[4 * (i % 4) + i / 4]));
        }
    }
    if is_float_block(b, offset) {
        assert forall|i: int| 0 <= i < 16 implies plausible_bits(#[trigger] x[i]) by {
            assert(plausible_bits(y[4 * (i % 4) + i / 4]));
        }
    }
}

proof fn lemma_same_hits<F: Fn(Vec<u32>) -> bool>(
    a: Seq<u8>,
    b: Seq<u8>,
    base: u64,
    ranges: Seq<(u64, u64)>,
    fits: F,
    found: Option<u64>,
)
    requires
        a.len() == b.len(),
        forall|offset: int| #[trigger]
            is_block(a.len() as int, ranges, offset) ==> block_bits(b, offset) == transposed(
                block_bits(a, offset),
            ),
        matrix_in(a, base, ranges, fits, found),
    ensures
        matrix_in(b, base, ranges, fits, found),
{
    let hits = choose|hits: Set<int>| #[trigger]
        judged(a, ranges, fits, hits) && only_hit(base, hits, found);
    assert forall|offset: int|
        if is_block(b.len() as int, ranges, offset) {
            answer(b, offset, fits, #[trigger] hits.contains(offset))
        } else {
            !hits.contains(offset)
        } by {
        if is_block(a.len() as int, ranges, offset) {
            lemma_same_answer(a, b, offset, fits, hits.contains(offset));
        }
    }
    assert(judged(b, ranges, fits, hits));
}

/// The same matrices stored by rows or by columns are found at the same
/// address.
pub proof fn lemma_either_storage<F: Fn(Vec<u32>) -> bool>(
    rows: Seq<u8>,
    columns: Seq<u8>,
    base: u64,
    ranges: Seq<(u64, u64)>,
    fits: F,
    found: Option<u64>,
)
    requires
        rows.len() == columns.len(),
        forall|offset: int| #[trigger]
            is_block(rows.len() as int, ranges, offset) ==> block_bits(columns, offset)
                == transposed(block_bits(rows, offset)),
    ensures
        matrix_in(rows, base, ranges, fits, found) == matrix_in(columns, base, ranges, fits, found),
{
    assert forall|offset: int| #[trigger]
        is_block(columns.len() as int, ranges, offset) implies block_bits(rows, offset)
        == transposed(block_bits(columns, offset)) by {
        assert(transposed(transposed(block_bits(rows, offset))) =~= block_bits(rows, offset));
    }
    if matrix_in(rows, base, ranges, fits, found) {
        lemma_same_hits(rows, columns, base, ranges, fits, found);
    }
    if matrix_in(columns, base, ranges, fits, found) {
        lemma_same_hits(columns, rows, base, ranges, fits, found);
    }
}

/// `fits` goes by the numbers alone: it never answers both yes and no on the same
/// ones.
pub open spec fn is_pure<F: Fn(Vec<u32>) -> bool>(fits: F) -> bool {
    forall|bits: Seq<u32>| !(#[trigger] answered(bits, fits, true) && answered(bits, fits, false))
}

/// Where `fits` goes by the numbers alone, an image has one answer.
pub proof fn lemma_matrix_once<F: Fn(Vec<u32>) -> bool>(
    image: Seq<u8>,
    base: u64,
    ranges: Seq<(u64, u64)>,
    fits: F,
    a: Option<u64>,
    b: Option<u64>,
)
    requires
        is_pure(fits),
        matrix_in(image, base, ranges, fits, a),
        matrix_in(image, base, ranges, fits, b),
    ensures
        a == b,
{
    let one = choose|hits: Set<int>| #[trigger]
        judged(image, ranges, fits, hits) && only_hit(base, hits, a);
    let two = choose|hits: Set<int>| #[trigger]
        judged(image, ranges, fits, hits) && only_hit(base, hits, b);
    assert forall|offset: int| one.contains(offset) == two.contains(offset) by {
        if is_block(image.len() as int, ranges, offset) {
            assert(answer(image, offset, fits, one.contains(offset)));
            assert(answer(image, offset, fits, two.contains(offset)));
        }
    }
    assert(one =~= two);
    if a is Some {
        assert(hit_at(base, one, a->0 - base));
    }
    if b is Some {
        assert(hit_at(base, one, b->0 - base));
    }
}

/// A single block of finite numbers of magnitude up to a million that fits is
/// always found, whichever of its numbers is how large.
pub proof fn lemma_single_block_found<F: Fn(Vec<u32>) -> bool>(
    image: Seq<u8>,
    base: u64,
    ranges: Seq<(u64, u64)>,
    fits: F,
    offset: int,
    found: Option<u64>,
)
    requires
        is_pure(fits),
        exists|r: int|
            0 <= r < ranges.len() && (#[trigger] ranges[r]).0 <= offset && offset + 64
                <= ranges[r].0 + ranges[r].1,
        offset % 4 == 0,
        offset + 64 <= image.len(),
        base + offset <= u64::MAX,
        forall|i: int|
            0 <= i < 16 ==> exponent_of(#[trigger] block_bits(image, offset)[i]) < 255
                && magnitude_of(block_bits(image, offset)[i]) <= 1_000_000 * pow2(149),
        answered(block_bits(image, offset), fits, true) || answered(
            transposed(block_bits(image, offset)),
            fits,
            true,
        ),
        forall|other: int|
            other != offset && is_block(image.len() as int, ranges, other) ==> !answered(
                #[trigger] block_bits(image, other),
                fits,
                true,
            ) && !answered(transposed(block_bits(image, other)), fits, true),
        matrix_in(image, base, ranges, fits, found),
    ensures
        found == Some((base + offset) as u64),
{
    let hits = choose|hits: Set<int>| #[trigger]
        judged(image, ranges, fits, hits) && only_hit(base, hits, found);
    assert forall|i: int| 0 <= i < 16 implies plausible_bits(
        #[trigger] block_bits(image, offset)[i],
    ) by {
        lemma_plausible(block_bits(image, offset)[i]);
    }
    let r = choose|r: int|
        0 <= r < ranges.len() && (#[trigger] ranges[r]).0 <= offset && offset + 64 <= ranges[r].0
            + ranges[r].1;
    assert(block_in(image.len() as int, ranges[r], offset));
    assert(answer(image, offset, fits, hits.contains(offset)));
    assert(hits.contains(offset));
    assert(hit_at(base, hits, offset));
    assert forall|other: int| #[trigger] hit_at(base, hits, other) implies other == offset by {
        if other != offset && is_block(image.len() as int, ranges, other) {
            assert(answer(image, other, fits, hits.contains(other)));
            assert(!answered(block_bits(image, other), fits, true));
        }
    }
}

/// The bytes of sixteen numbers.
pub open spec fn stored(bits: Seq<u32>) -> Seq<u8> {
    Seq::new(64, |i: int| le_byte(bits[i / 4], i % 4))
}

proof fn lemma_stored(bits: Seq<u32>)
    requires
        bits.len() == 16,
    ensures
        block_bits(stored(bits), 0) == bits,
{
    let image = stored(bits);
    assert forall|i: int| 0 <= i < 16 implies #[trigger] block_bits(image, 0)[i] == bits[i] by {
        let n = bits[i];
        assert(image[4 * i] == n % 0x100);
        assert(image[4 * i + 1] == n / 0x100 % 0x100);
        assert(image[4 * i + 2] == n / 0x1_0000 % 0x100);
        assert(image[4 * i + 3] == n / 0x100_0000);
    }
    assert(block_bits(image, 0) =~= bits);
}

/// A matrix and its transpose, each alone in an image, are found at the same
/// address or not at all, where `fits` goes by the numbers alone.
pub proof fn lemma_transpose_found_alike<F: Fn(Vec<u32>) -> bool>(
    bits: Seq<u32>,
    base: u64,
    fits: F,
    a: Option<u64>,
    b: Option<u64>,
)
    requires
        bits.len() == 16,
        is_pure(fits),
        matrix_in(stored(bits), base, seq![(0u64, 64u64)], fits, a),
        matrix_in(stored(transposed(bits)), base, seq![(0u64, 64u64)], fits, b),
    ensures
        a == b,
{
    let ranges = seq![(0u64, 64u64)];
    let rows = stored(bits);
    let columns = stored(transposed(bits));
    lemma_stored(bits);
    lemma_stored(transposed(bits));
    assert forall|offset: int| #[trigger] is_block(64, ranges, offset) implies block_bits(
        columns,
        offset,
    ) == transposed(block_bits(rows, offset)) by {
        let r = choose|r: int| 0 <= r < ranges.len() && block_in(64, #[trigger] ranges[r], offset);
        assert(ranges[r] == (0u64, 64u64));
        assert(offset == 0);
    }
    lemma_either_storage(rows, columns, base, ranges, fits, a);
    lemma_matrix_once(columns, base, ranges, fits, a, b);
}

/// Whether a block stands in one of the first `n` ranges.
fn stands_before(len: usize, ranges: &[(u64, u64)], n: usize, offset: u64) -> (yes: bool)
    requires
        n <= ranges@.len(),
        64 <= len,
        offset % 4 == 0,
        offset + 64 <= len,
    ensures
        yes == is_block(len as int, ranges@.subrange(0, n as int), offset as int),
{
    let ghost before = ranges@.subrange(0, n as int);
    let mut r: usize = 0;
    while r < n
        invariant
            n <= ranges@.len(),
            before == ranges@.subrange(0, n as int),
            r <= n,
            offset % 4 == 0,
            offset + 64 <= len,
            forall|k: int| 0 <= k < r ==> !block_in(len as int, #[trigger] before[k], offset as int),
        decreases n - r,
    {
        let range = ranges[r];
        assert(range == before[r as int]);
        if range.0 <= offset && offset - range.0 <= range.1 && range.1 - (offset - range.0) >= 64 {
            return true;
        }
        r = r + 1;
    }
    false
}

/// Whether the block at an offset fits.
fn block_fits<F: Fn(Vec<u32>) -> bool>(image: &[u8], offset: usize, fits: &F) -> (yes: bool)
    requires
        offset + 64 <= image@.len(),
        forall|bits: Vec<u32>| #[trigger] call_requires(*fits, (bits,)),
    ensures
        answer(image@, offset as int, *fits, yes),
{
    match floats(image, offset) {
        Some(bits) => {
            let other = transpose(&bits);
            if fits(bits) {
                true
            } else {
                fits(other)
            }
        },
        None => false,
    }
}

/// The address of the only block in the ranges whose numbers are plausible and
/// fit, as they stand or with rows and columns exchanged.
pub fn find_in_image<F: Fn(Vec<u32>) -> bool>(
    image: &[u8],
    base: u64,
    ranges: &[(u64, u64)],
    fits: F,
) -> (found: Option<u64>)
    requires
        forall|bits: Vec<u32>| #[trigger] call_requires(fits, (bits,)),
    ensures
        matrix_in(image@, base, ranges@, fits, found),
{
    let len: usize = image.len();
    let mut found: Vec<u64> = Vec::new();
    let ghost mut hits: Set<int> = Set::empty();
    let mut r: usize = 0;
    while r < ranges.len()
        invariant
            forall|bits: Vec<u32>| #[trigger] call_requires(fits, (bits,)),
            len == image@.len(),
            r <= ranges@.len(),
            judged(image@, ranges@.subrange(0, r as int), fits, hits),
            lists_hits(base, hits, found@),
        decreases ranges@.len() - r,
    {
        let range = ranges[r];
        let ghost before = ranges@.subrange(0, r as int);
        let ghost upto = ranges@.subrange(0, r + 1);
        assert forall|offset: int| #[trigger]
            is_block(len as int, upto, offset) == (is_block(len as int, before, offset) || block_in(
                len as int,
                range,
                offset,
            )) by {
            lemma_one_more_range(len as int, ranges@, r as int, offset);
        }
        if len >= 64 && range.0 <= (len - 64) as u64 {
            let rest: u64 = range.0 % 4;
            let first: u64 = if rest == 0 {
                range.0
            } else {
                range.0 - rest + 4
            };
            let mut offset: u64 = first;
            while offset <= (len - 64) as u64 && offset - range.0 <= range.1 && range.1 - (offset
                - range.0) >= 64
                invariant
                    forall|bits: Vec<u32>| #[trigger] call_requires(fits, (bits,)),
                    len == image@.len(),
                    64 <= len,
                    r < ranges@.len(),
                    before == ranges@.subrange(0, r as int),
                    range.0 <= offset,
                    offset % 4 == 0,
                    offset <= len + 4,
                    judged_to(image@, before, range, offset as int, fits, hits),
                    lists_hits(base, hits, found@),
                decreases len + 4 - offset,
            {
                assert(block_in(len as int, range, offset as int));
                if !stands_before(len, ranges, r, offset) {
                    assert(!hits.contains(offset as int));
                    let yes = block_fits(image, offset as usize, &fits);
                    if yes {
                        let ghost was = hits;
                        let ghost was_found = found@;
                        proof {
                            hits = hits.insert(offset as int);
                        }
                        match base.checked_add(offset) {
                            Some(va) => {
                                found.push(va);
                                proof {
                                    lemma_hit_listed(base, was, was_found, offset as int);
                                }
                            },
                            None => {
                                proof {
                                    lemma_hit_outside(base, was, was_found, offset as int);
                                }
                            },
                        }
                    }
                }
                offset = offset + 4;
            }
        }
        assert(judged(image@, upto, fits, hits)) by {
            assert forall|o: int|
                if is_block(len as int, upto, o) {
                    answer(image@, o, fits, #[trigger] hits.contains(o))
                } else {
                    !hits.contains(o)
                } by {
                assert(is_block(len as int, upto, o) == (is_block(len as int, before, o) || block_in(
                    len as int,
                    range,
                    o,
                )));
            }
        }
        r = r + 1;
    }
    assert(ranges@.subrange(0, r as int) =~= ranges@);
    if found.len() == 1 {
        assert(hit_at(base, hits, found@[0] - base));
        Some(found[0])
    } else {
        assert forall|offset: int| #[trigger] hit_at(base, hits, offset) implies exists|other: int|
            other != offset && #[trigger] hit_at(base, hits, other) by {
            let k = choose|k: int| 0 <= k < found@.len() && #[trigger] found@[k] - base == offset;
            let j: int = if k == 0 {
                1
            } else {
                0
            };
            assert(hit_at(base, hits, found@[j] - base));
            assert(found@[j] != found@[k]);
        }
        None
    }
}

/// The answers on the blocks of earlier ranges, and on those of one more range
/// below an offset.
spec fn judged_to<F: Fn(Vec<u32>) -> bool>(
    image: Seq<u8>,
    before: Seq<(u64, u64)>,
    range: (u64, u64),
    end: int,
    fits: F,
    hits: Set<int>,
) -> bool {
    forall|offset: int|
        if is_block(image.len() as int, before, offset) || (block_in(
            image.len() as int,
            range,
            offset,
        ) && offset < end) {
            answer(image, offset, fits, #[trigger] hits.contains(offset))
        } else {
            !hits.contains(offset)
        }
}

/// The list holds the address of each offset at which a block fits, once.
spec fn lists_hits(base: u64, hits: Set<int>, found: Seq<u64>) -> bool {
    &&& found.no_duplicates()
    &&& forall|k: int| 0 <= k < found.len() ==> hit_at(base, hits, #[trigger] found[k] - base)
    &&& forall|offset: int| #[trigger]
        hit_at(base, hits, offset) ==> exists|k: int|
            0 <= k < found.len() && #[trigger] found[k] - base == offset
}

proof fn lemma_one_more_range(len: int, ranges: Seq<(u64, u64)>, r: int, offset: int)
    requires
        0 <= r < ranges.len(),
    ensures
        is_block(len, ranges.subrange(0, r + 1), offset) == (is_block(
            len,
            ranges.subrange(0, r),
            offset,
        ) || block_in(len, ranges[r], offset)),
{
    let before = ranges.subrange(0, r);
    let upto = ranges.subrange(0, r + 1);
    if is_block(len, before, offset) {
        let k = choose|k: int| 0 <= k < before.len() && block_in(len, #[trigger] before[k], offset);
        assert(block_in(len, upto[k], offset));
    }
    if block_in(len, ranges[r], offset) {
        assert(block_in(len, upto[r], offset));
    }
    if is_block(len, upto, offset) {
        let k = choose|k: int| 0 <= k < upto.len() && block_in(len, #[trigger] upto[k], offset);
        if k < r {
            assert(block_in(len, before[k], offset));
        }
    }
}

proof fn lemma_hit_listed(base: u64, hits: Set<int>, found: Seq<u64>, offset: int)
    requires
        lists_hits(base, hits, found),
        !hits.contains(offset),
        0 <= base + offset <= u64::MAX,
    ensures
        lists_hits(base, hits.insert(offset), found.push((base + offset) as u64)),
{
    let more = hits.insert(offset);
    let list = found.push((base + offset) as u64);
    assert forall|k: int| 0 <= k < list.len() implies hit_at(base, more, #[trigger] list[k] - base) by {
        if k < found.len() {
            assert(hit_at(base, hits, found[k] - base));
        }
    }
    assert forall|other: int| #[trigger] hit_at(base, more, other) implies exists|k: int|
        0 <= k < list.len() && #[trigger] list[k] - base == other by {
        if other == offset {
            assert(list[found.len() as int] - base == other);
        } else {
            assert(hit_at(base, hits, other));
            let k = choose|k: int| 0 <= k < found.len() && #[trigger] found[k] - base == other;
            assert(list[k] - base == other);
        }
    }
    assert forall|i: int, j: int| 0 <= i < list.len() && 0 <= j < list.len() && i != j implies list[i]
        != list[j] by {
        if i < found.len() {
            assert(hit_at(base, hits, found[i] - base));
        }
        if j < found.len() {
            assert(hit_at(base, hits, found[j] - base));
        }
    }
}

proof fn lemma_hit_outside(base: u64, hits: Set<int>, found: Seq<u64>, offset: int)
    requires
        lists_hits(base, hits, found),
        base + offset > u64::MAX,
    ensures
        lists_hits(base, hits.insert(offset), found),
{
    let more = hits.insert(offset);
    assert forall|k: int| 0 <= k < found.len() implies hit_at(base, more, #[trigger] found[k] - base) by {
        assert(hit_at(base, hits, found[k] - base));
    }
    assert forall|other: int| #[trigger] hit_at(base, more, other) implies exists|k: int|
        0 <= k < found.len() && #[trigger] found[k] - base == other by {
        assert(hit_at(base, hits, other));
    }
}

} // verus!
