//! Planes of small fields: the high parts of palette indices, and depths, with
//! several pixels in one byte.

use vstd::prelude::*;

verus! {

/// The number of bytes in a row of `w` pixels with `per` pixels to a byte.
pub open spec fn row_bytes(w: int, per: int) -> int {
    (w + per - 1) / per
}

/// The value of the pixel at column `x` of row `y`, and zero beyond the row.
pub open spec fn field_at(values: Seq<u8>, w: int, y: int, x: int) -> int {
    if x < w {
        values[y * w + x] as int
    } else {
        0
    }
}

/// Two pixels in one byte, the even column low.
pub open spec fn nibble_byte(values: Seq<u8>, w: int, y: int, xp: int) -> int {
    field_at(values, w, y, 2 * xp) + 16 * field_at(values, w, y, 2 * xp + 1)
}

/// Four pixels in one byte, the first column lowest.
pub open spec fn quarter_byte(values: Seq<u8>, w: int, y: int, xp: int) -> int {
    field_at(values, w, y, 4 * xp) + 4 * field_at(values, w, y, 4 * xp + 1) + 16 * field_at(
        values,
        w,
        y,
        4 * xp + 2,
    ) + 64 * field_at(values, w, y, 4 * xp + 3)
}

/// `plane` holds `values`, two pixels to a byte.
pub open spec fn is_nibble_plane(values: Seq<u8>, w: int, h: int, plane: Seq<u8>) -> bool {
    &&& plane.len() == row_bytes(w, 2) * h
    &&& forall|y: int, xp: int|
        0 <= y < h && 0 <= xp < row_bytes(w, 2) ==> #[trigger] at(plane, row_bytes(w, 2), y, xp)
            == nibble_byte(values, w, y, xp)
}

/// `plane` holds `values`, four pixels to a byte.
pub open spec fn is_quarter_plane(values: Seq<u8>, w: int, h: int, plane: Seq<u8>) -> bool {
    &&& plane.len() == row_bytes(w, 4) * h
    &&& forall|y: int, xp: int|
        0 <= y < h && 0 <= xp < row_bytes(w, 4) ==> #[trigger] at(plane, row_bytes(w, 4), y, xp)
            == quarter_byte(values, w, y, xp)
}

/// The byte at column `x` of row `y` of a plane with `w` bytes to a row.
pub open spec fn at(plane: Seq<u8>, w: int, y: int, x: int) -> int {
    plane[y * w + x] as int
}

/// The nibble of pixel `x` of row `y`.
pub open spec fn nibble_at(plane: Seq<u8>, w: int, y: int, x: int) -> int {
    let byte = at(plane, row_bytes(w, 2), y, x / 2);
    if x % 2 == 0 {
        byte % 16
    } else {
        byte / 16
    }
}

/// The two bits of pixel `x` of row `y`.
pub open spec fn quarter_at(plane: Seq<u8>, w: int, y: int, x: int) -> int {
    let byte = at(plane, row_bytes(w, 4), y, x / 4);
    if x % 4 == 0 {
        byte % 4
    } else if x % 4 == 1 {
        (byte / 4) % 4
    } else if x % 4 == 2 {
        (byte / 16) % 4
    } else {
        byte / 64
    }
}

/// Every value is below `bound`.
pub open spec fn all_below(values: Seq<u8>, bound: int) -> bool {
    forall|i: int| 0 <= i < values.len() ==> #[trigger] values[i] < bound
}

pub proof fn lemma_in_rows(w: int, h: int, y: int, x: int)
    requires
        0 <= y < h,
        0 <= x < w,
    ensures
        0 <= y * w,
        0 <= y * w + x < w * h,
{
    assert(y * w + x < w * h) by (nonlinear_arith)
        requires
            0 <= y < h,
            0 <= x < w,
    ;
    assert(0 <= y * w) by (nonlinear_arith)
        requires
            0 <= y,
            0 <= w,
    ;
}

/// The value `o` columns after column `base`.
fn field(values: &Vec<u8>, w: usize, y: usize, base: usize, o: usize, Ghost(h): Ghost<int>) -> (v: u8)
    requires
        values@.len() == w * h,
        y < h,
        base < w,
    ensures
        v == field_at(values@, w as int, y as int, base + o),
{
    if o < w - base {
        proof {
            lemma_in_rows(w as int, h, y as int, base + o);
            assert(values.len() == values@.len());
        }
        values[y * w + (base + o)]
    } else {
        0
    }
}

proof fn lemma_field_below(values: Seq<u8>, w: int, h: int, y: int, x: int, bound: int)
    requires
        values.len() == w * h,
        all_below(values, bound),
        0 < bound,
        0 <= y < h,
        0 <= x,
    ensures
        0 <= field_at(values, w, y, x) < bound,
{
    if x < w {
        lemma_in_rows(w, h, y, x);
    }
}

/// A byte before the next one of a plane is there already.
pub proof fn lemma_next_byte(rw: int, y: int, xp: int, len: int, z: int, xq: int)
    requires
        0 <= xp < rw,
        0 <= y,
        len == y * rw + xp,
        0 <= z,
        0 <= xq < rw,
        z < y || (z == y && xq < xp),
    ensures
        0 <= z * rw + xq < len,
{
    assert(0 <= z * rw) by (nonlinear_arith)
        requires
            0 <= z,
            0 < rw,
    ;
    if z < y {
        assert(z * rw + rw <= y * rw) by (nonlinear_arith)
            requires
                z + 1 <= y,
                0 < rw,
        ;
    }
}

/// Packs values below 16, two pixels to a byte.
pub fn pack_nibbles(values: &Vec<u8>, w: usize, h: usize) -> (plane: Vec<u8>)
    requires
        values@.len() == w * h,
        all_below(values@, 16),
    ensures
        is_nibble_plane(values@, w as int, h as int, plane@),
{
    let rw: usize = w / 2 + w % 2;
    let mut plane: Vec<u8> = Vec::new();
    let mut y: usize = 0;
    while y < h
        invariant
            y <= h,
            rw == row_bytes(w as int, 2),
            values@.len() == w * h,
            all_below(values@, 16),
            plane@.len() == y * rw,
            forall|z: int, xp: int|
                0 <= z < y && 0 <= xp < rw ==> #[trigger] at(plane@, rw as int, z, xp)
                    == nibble_byte(values@, w as int, z, xp),
        decreases h - y,
    {
        let mut xp: usize = 0;
        while xp < rw
            invariant
                y < h,
                xp <= rw,
                rw == row_bytes(w as int, 2),
                values@.len() == w * h,
                all_below(values@, 16),
                plane@.len() == y * rw + xp,
                forall|z: int, xq: int|
                    0 <= z && 0 <= xq < rw && (z < y || (z == y && xq < xp)) ==> #[trigger] at(
                        plane@,
                        rw as int,
                        z,
                        xq,
                    ) == nibble_byte(values@, w as int, z, xq),
            decreases rw - xp,
        {
            let ghost was = plane@;
            let even: u8 = field(values, w, y, 2 * xp, 0, Ghost(h as int));
            let odd: u8 = field(values, w, y, 2 * xp, 1, Ghost(h as int));
            proof {
                lemma_field_below(values@, w as int, h as int, y as int, 2 * xp as int, 16);
                lemma_field_below(values@, w as int, h as int, y as int, 2 * xp + 1, 16);
            }
            plane.push(even + 16 * odd);
            proof {
                assert forall|z: int, xq: int|
                    0 <= z && 0 <= xq < rw && (z < y || (z == y && xq < xp + 1)) implies #[trigger] at(
                    plane@,
                    rw as int,
                    z,
                    xq,
                ) == nibble_byte(values@, w as int, z, xq) by {
                    if z < y || xq < xp {
                        lemma_next_byte(rw as int, y as int, xp as int, was.len() as int, z, xq);
                        assert(at(was, rw as int, z, xq) == nibble_byte(values@, w as int, z, xq));
                    }
                }
            }
            xp = xp + 1;
        }
        proof {
            assert((y + 1) * rw == y * rw + rw) by (nonlinear_arith);
        }
        y = y + 1;
    }
    assert(h * rw == rw * h) by (nonlinear_arith);
    plane
}

/// Packs values below 4, four pixels to a byte.
pub fn pack_quarters(values: &Vec<u8>, w: usize, h: usize) -> (plane: Vec<u8>)
    requires
        values@.len() == w * h,
        all_below(values@, 4),
    ensures
        is_quarter_plane(values@, w as int, h as int, plane@),
{
    let rw: usize = if w % 4 == 0 {
        w / 4
    } else {
        w / 4 + 1
    };
    let mut plane: Vec<u8> = Vec::new();
    let mut y: usize = 0;
    while y < h
        invariant
            y <= h,
            rw == row_bytes(w as int, 4),
            values@.len() == w * h,
            all_below(values@, 4),
            plane@.len() == y * rw,
            forall|z: int, xp: int|
                0 <= z < y && 0 <= xp < rw ==> #[trigger] at(plane@, rw as int, z, xp)
                    == quarter_byte(values@, w as int, z, xp),
        decreases h - y,
    {
        let mut xp: usize = 0;
        while xp < rw
            invariant
                y < h,
                xp <= rw,
                rw == row_bytes(w as int, 4),
                values@.len() == w * h,
                all_below(values@, 4),
                plane@.len() == y * rw + xp,
                forall|z: int, xq: int|
                    0 <= z && 0 <= xq < rw && (z < y || (z == y && xq < xp)) ==> #[trigger] at(
                        plane@,
                        rw as int,
                        z,
                        xq,
                    ) == quarter_byte(values@, w as int, z, xq),
            decreases rw - xp,
        {
            let ghost was = plane@;
            let a: u8 = field(values, w, y, 4 * xp, 0, Ghost(h as int));
            let b: u8 = field(values, w, y, 4 * xp, 1, Ghost(h as int));
            let c: u8 = field(values, w, y, 4 * xp, 2, Ghost(h as int));
            let d: u8 = field(values, w, y, 4 * xp, 3, Ghost(h as int));
            proof {
                lemma_field_below(values@, w as int, h as int, y as int, 4 * xp as int, 4);
                lemma_field_below(values@, w as int, h as int, y as int, 4 * xp + 1, 4);
                lemma_field_below(values@, w as int, h as int, y as int, 4 * xp + 2, 4);
                lemma_field_below(values@, w as int, h as int, y as int, 4 * xp + 3, 4);
            }
            plane.push(a + 4 * b + 16 * c + 64 * d);
            proof {
                assert forall|z: int, xq: int|
                    0 <= z && 0 <= xq < rw && (z < y || (z == y && xq < xp + 1)) implies #[trigger] at(
                    plane@,
                    rw as int,
                    z,
                    xq,
                ) == quarter_byte(values@, w as int, z, xq) by {
                    if z < y || xq < xp {
                        lemma_next_byte(rw as int, y as int, xp as int, was.len() as int, z, xq);
                        assert(at(was, rw as int, z, xq) == quarter_byte(values@, w as int, z, xq));
                    }
                }
            }
            xp = xp + 1;
        }
        proof {
            assert((y + 1) * rw == y * rw + rw) by (nonlinear_arith);
        }
        y = y + 1;
    }
    assert(h * rw == rw * h) by (nonlinear_arith);
    plane
}

/// The low bytes of the indices.
pub open spec fn low_bytes(indices: Seq<u16>) -> Seq<u8> {
    Seq::new(indices.len(), |i: int| (indices[i] % 256) as u8)
}

/// The parts of the indices above the low byte, modulo `m`.
pub open spec fn high_parts(indices: Seq<u16>, m: int) -> Seq<u8> {
    Seq::new(indices.len(), |i: int| ((indices[i] as int / 256) % m) as u8)
}

/// The low bytes of the indices.
pub fn lows(indices: &Vec<u16>) -> (plane: Vec<u8>)
    ensures
        plane@ == low_bytes(indices@),
{
    let mut plane: Vec<u8> = Vec::new();
    let mut i: usize = 0;
    while i < indices.len()
        invariant
            i <= indices@.len(),
            plane@.len() == i,
            forall|j: int| 0 <= j < i ==> #[trigger] plane@[j] == indices@[j] % 256,
        decreases indices@.len() - i,
    {
        plane.push((indices[i] % 256) as u8);
        i = i + 1;
    }
    assert(plane@ =~= low_bytes(indices@));
    plane
}

/// The parts of the indices above the low byte, modulo `m`.
pub fn highs(indices: &Vec<u16>, m: u16) -> (plane: Vec<u8>)
    requires
        0 < m <= 256,
    ensures
        plane@ == high_parts(indices@, m as int),
        all_below(plane@, m as int),
{
    let mut plane: Vec<u8> = Vec::new();
    let mut i: usize = 0;
    while i < indices.len()
        invariant
            0 < m <= 256,
            i <= indices@.len(),
            plane@.len() == i,
            forall|j: int| 0 <= j < i ==> #[trigger] plane@[j] == (indices@[j] / 256) % m,
            all_below(plane@, m as int),
        decreases indices@.len() - i,
    {
        plane.push(((indices[i] / 256) % m) as u8);
        i = i + 1;
    }
    assert(plane@ =~= high_parts(indices@, m as int));
    plane
}

/// The depth levels, one nibble each.
pub open spec fn low_nibbles(depths: Seq<u8>) -> Seq<u8> {
    Seq::new(depths.len(), |i: int| (depths[i] % 16) as u8)
}

/// The low nibbles of the depths.
pub fn nibbles(depths: &Vec<u8>) -> (plane: Vec<u8>)
    ensures
        plane@ == low_nibbles(depths@),
        all_below(plane@, 16),
{
    let mut plane: Vec<u8> = Vec::new();
    let mut i: usize = 0;
    while i < depths.len()
        invariant
            i <= depths@.len(),
            plane@.len() == i,
            forall|j: int| 0 <= j < i ==> #[trigger] plane@[j] == depths@[j] % 16,
            all_below(plane@, 16),
        decreases depths@.len() - i,
    {
        plane.push(depths[i] % 16);
        i = i + 1;
    }
    assert(plane@ =~= low_nibbles(depths@));
    plane
}

/// A nibble plane gives back what was packed.
pub proof fn law_nibbles_come_back(
    values: Seq<u8>,
    w: int,
    h: int,
    plane: Seq<u8>,
    y: int,
    x: int,
)
    requires
        values.len() == w * h,
        all_below(values, 16),
        is_nibble_plane(values, w, h, plane),
        0 <= y < h,
        0 <= x < w,
    ensures
        nibble_at(plane, w, y, x) == values[y * w + x],
{
    let xp = x / 2;
    lemma_field_below(values, w, h, y, 2 * xp, 16);
    lemma_field_below(values, w, h, y, 2 * xp + 1, 16);
    assert(at(plane, row_bytes(w, 2), y, xp) == nibble_byte(values, w, y, xp));
}

/// A plane with four pixels to a byte gives back what was packed.
pub proof fn law_quarters_come_back(
    values: Seq<u8>,
    w: int,
    h: int,
    plane: Seq<u8>,
    y: int,
    x: int,
)
    requires
        values.len() == w * h,
        all_below(values, 4),
        is_quarter_plane(values, w, h, plane),
        0 <= y < h,
        0 <= x < w,
    ensures
        quarter_at(plane, w, y, x) == values[y * w + x],
{
    let xp = x / 4;
    lemma_field_below(values, w, h, y, 4 * xp, 4);
    lemma_field_below(values, w, h, y, 4 * xp + 1, 4);
    lemma_field_below(values, w, h, y, 4 * xp + 2, 4);
    lemma_field_below(values, w, h, y, 4 * xp + 3, 4);
    assert(at(plane, row_bytes(w, 4), y, xp) == quarter_byte(values, w, y, xp));
}

/// A low byte and a high nibble make up an index of 12 bits again.
pub proof fn law_twelve_bit_indices_come_back(
    indices: Seq<u16>,
    w: int,
    h: int,
    hi: Seq<u8>,
    y: int,
    x: int,
)
    requires
        indices.len() == w * h,
        is_nibble_plane(high_parts(indices, 16), w, h, hi),
        0 <= y < h,
        0 <= x < w,
        indices[y * w + x] < 0x1000,
    ensures
        low_bytes(indices)[y * w + x] + 256 * nibble_at(hi, w, y, x) == indices[y * w + x],
{
    lemma_in_rows(w, h, y, x);
    law_nibbles_come_back(high_parts(indices, 16), w, h, hi, y, x);
}

/// A low byte and two high bits make up an index of 10 bits again.
pub proof fn law_ten_bit_indices_come_back(
    indices: Seq<u16>,
    w: int,
    h: int,
    hi: Seq<u8>,
    y: int,
    x: int,
)
    requires
        indices.len() == w * h,
        is_quarter_plane(high_parts(indices, 4), w, h, hi),
        0 <= y < h,
        0 <= x < w,
        indices[y * w + x] < 0x400,
    ensures
        low_bytes(indices)[y * w + x] + 256 * quarter_at(hi, w, y, x) == indices[y * w + x],
{
    lemma_in_rows(w, h, y, x);
    law_quarters_come_back(high_parts(indices, 4), w, h, hi, y, x);
}

/// A low byte and a high byte make up an index of 14 bits again.
pub proof fn law_fourteen_bit_indices_come_back(indices: Seq<u16>, i: int)
    requires
        0 <= i < indices.len(),
        indices[i] < 0x4000,
    ensures
        low_bytes(indices)[i] + 256 * high_parts(indices, 64)[i] == indices[i],
{
}

/// Where the nibbles and the pairs of bits of a byte are.
proof fn lemma_parts(byte: u8)
    by (bit_vector)
    ensures
        (byte >> 0) & 15 == byte % 16,
        (byte >> 4) & 15 == byte / 16,
        (byte >> 0) & 3 == byte % 4,
        (byte >> 2) & 3 == (byte / 4) % 4,
        (byte >> 4) & 3 == (byte / 16) % 4,
        (byte >> 6) & 3 == byte / 64,
{
}

/// In a plane of nibbles a pixel in an even column is in the lower half of its byte, and
/// one in an odd column in the upper half. Rows start with a byte of their own, and the
/// half that a row leaves over is clear.
pub proof fn law_nibbles_stand_in_order(
    values: Seq<u8>,
    w: int,
    h: int,
    plane: Seq<u8>,
    y: int,
    x: int,
)
    requires
        values.len() == w * h,
        all_below(values, 16),
        is_nibble_plane(values, w, h, plane),
        0 <= y < h,
        0 <= x < w,
    ensures
        ({
            let row = if w % 2 == 0 {
                w / 2
            } else {
                w / 2 + 1
            };
            let byte = plane[y * row + x / 2];
            &&& plane.len() == row * h
            &&& values[y * w + x] == (byte >> if x % 2 == 0 {
                0u8
            } else {
                4u8
            }) & 15
            &&& x == w - 1 && x % 2 == 0 ==> byte < 16
        }),
{
    law_nibbles_come_back(values, w, h, plane, y, x);
    lemma_field_below(values, w, h, y, 2 * (x / 2), 16);
    assert(at(plane, row_bytes(w, 2), y, x / 2) == nibble_byte(values, w, y, x / 2));
    lemma_parts(plane[y * row_bytes(w, 2) + x / 2]);
}

/// In a plane of pairs of bits the pixels of four columns are in one byte, the first of
/// them in its lowest bits.
pub proof fn law_quarters_stand_in_order(
    values: Seq<u8>,
    w: int,
    h: int,
    plane: Seq<u8>,
    y: int,
    x: int,
)
    requires
        values.len() == w * h,
        all_below(values, 4),
        is_quarter_plane(values, w, h, plane),
        0 <= y < h,
        0 <= x < w,
    ensures
        ({
            let row = if w % 4 == 0 {
                w / 4
            } else {
                w / 4 + 1
            };
            let byte = plane[y * row + x / 4];
            &&& plane.len() == row * h
            &&& values[y * w + x] == (byte >> if x % 4 == 0 {
                0u8
            } else if x % 4 == 1 {
                2u8
            } else if x % 4 == 2 {
                4u8
            } else {
                6u8
            }) & 3
        }),
{
    law_quarters_come_back(values, w, h, plane, y, x);
    lemma_parts(plane[y * row_bytes(w, 4) + x / 4]);
}

} // verus!
