//! Grids of tiles as rasters of texels, and trimming the edges that no tile uses.

use vstd::prelude::*;

verus! {

/// Texels of eight bytes, row by row.
pub struct Raster {
    pub width: u32,
    pub height: u32,
    pub data: Vec<u8>,
}

impl Raster {
    /// There are eight bytes for each texel.
    pub open spec fn wf(self) -> bool {
        self.data@.len() == self.width * self.height * 8
    }
}

/// Where byte `b` of the texel at column `x` of row `y` is.
pub open spec fn byte_pos(w: int, x: int, y: int, b: int) -> int {
    (y * w + x) * 8 + b
}

/// The texel at column `x` of row `y` has a colour or an alpha.
pub open spec fn used_at(data: Seq<u8>, w: int, x: int, y: int) -> bool {
    !(data[byte_pos(w, x, y, 0)] == 0 && data[byte_pos(w, x, y, 1)] == 0 && data[byte_pos(
        w,
        x,
        y,
        2,
    )] == 0 && data[byte_pos(w, x, y, 3)] == 0)
}

/// Some tile uses column `px` of its `ppt` columns.
pub open spec fn column_used(data: Seq<u8>, w: int, n: int, ppt: int, px: int) -> bool {
    exists|x: int, y: int|
        0 <= x < n && 0 <= y < n && x % ppt == px && #[trigger] used_at(data, w, x, y)
}

/// Some tile uses row `py` of its `ppt` rows.
pub open spec fn row_used(data: Seq<u8>, w: int, n: int, ppt: int, py: int) -> bool {
    exists|x: int, y: int|
        0 <= x < n && 0 <= y < n && y % ppt == py && #[trigger] used_at(data, w, x, y)
}

/// `first` and `last` are the outermost of the `n` positions for which `used`
/// holds, and zero where it holds for none.
pub open spec fn are_bounds(used: spec_fn(int) -> bool, n: int, first: int, last: int) -> bool {
    if exists|p: int| 0 <= p < n && #[trigger] used(p) {
        &&& 0 <= first <= last < n
        &&& used(first)
        &&& used(last)
        &&& forall|p: int| 0 <= p < n && #[trigger] used(p) ==> first <= p <= last
    } else {
        first == 0 && last == 0
    }
}

/// `packed` is `image` with all but `size.0` columns from `offset.0` on and
/// `size.1` rows from `offset.1` on cut off every tile.
pub open spec fn is_trimmed(
    image: Raster,
    grid: int,
    offset: (u32, u32),
    size: (u32, u32),
    packed: Raster,
) -> bool {
    let ppt = image.width as int / grid;
    &&& packed.width == size.0 * grid
    &&& packed.height == size.1 * grid
    &&& packed.wf()
    &&& forall|x: int, y: int, b: int|
        0 <= x < packed.width && 0 <= y < packed.height && 0 <= b < 8
            ==> #[trigger] packed.data@[byte_pos(packed.width as int, x, y, b)]
            == image.data@[source_pos(image.width as int, ppt, offset, size, x, y, b)]
}

/// Where byte `b` of a texel of the trimmed raster comes from.
pub open spec fn source_pos(
    w: int,
    ppt: int,
    offset: (u32, u32),
    size: (u32, u32),
    x: int,
    y: int,
    b: int,
) -> int {
    let sx = (x / size.0 as int) * ppt + offset.0 + x % size.0 as int;
    let sy = (y / size.1 as int) * ppt + offset.1 + y % size.1 as int;
    byte_pos(w, sx, sy, b)
}

/// `offset` and `size` are the columns and rows that some tile uses.
pub open spec fn is_tight(image: Raster, grid: int, offset: (u32, u32), size: (u32, u32)) -> bool {
    let w = image.width as int;
    let ppt = w / grid;
    let n = grid * ppt;
    &&& size.0 >= 1
    &&& size.1 >= 1
    &&& are_bounds(
        |px: int| column_used(image.data@, w, n, ppt, px),
        ppt,
        offset.0 as int,
        offset.0 + size.0 - 1,
    )
    &&& are_bounds(
        |py: int| row_used(image.data@, w, n, ppt, py),
        ppt,
        offset.1 as int,
        offset.1 + size.1 - 1,
    )
}

/// The bytes in words of four, by `bytemuck::cast_slice`. Its contract is that
/// word `i` has the bytes from `4 * i` on; words of bytes need no alignment, so
/// that the cast fails only where the length is no multiple of four.
#[verifier::external_body]
fn words(bytes: &[u8]) -> (w: &[[u8; 4]])
    requires
        bytes@.len() % 4 == 0,
    ensures
        w@.len() * 4 == bytes@.len(),
        forall|i: int|
            0 <= i < w@.len() ==> (#[trigger] w@[i])@ == bytes@.subrange(4 * i, 4 * i + 4),
{
    bytemuck::cast_slice(bytes)
}

proof fn lemma_texel_inside(w: int, h: int, x: int, y: int)
    requires
        0 <= x < w,
        0 <= y < h,
    ensures
        0 <= y * w,
        0 <= (y * w + x) * 8,
        (y * w + x) * 8 + 8 <= w * h * 8,
        y * w + x < w * h,
{
    assert(y * w + x < w * h) by (nonlinear_arith)
        requires
            0 <= x < w,
            0 <= y < h,
    ;
    assert(0 <= y * w) by (nonlinear_arith)
        requires
            0 <= y,
            0 <= w,
    ;
}

/// A texel before the one at column `x` of row `y` has colour or alpha and is
/// in column `px` of its tile.
spec fn column_seen(data: Seq<u8>, w: int, n: int, ppt: int, px: int, x: int, y: int) -> bool {
    exists|u: int, v: int|
        0 <= u < n && 0 <= v < n && (v < y || (v == y && u < x)) && u % ppt == px
            && #[trigger] used_at(data, w, u, v)
}

spec fn row_seen(data: Seq<u8>, w: int, n: int, ppt: int, py: int, x: int, y: int) -> bool {
    exists|u: int, v: int|
        0 <= u < n && 0 <= v < n && (v < y || (v == y && u < x)) && v % ppt == py
            && #[trigger] used_at(data, w, u, v)
}

/// One more texel is looked at.
proof fn lemma_seen_step(data: Seq<u8>, w: int, n: int, ppt: int, p: int, x: int, y: int)
    requires
        0 <= x < n,
        0 <= y < n,
    ensures
        column_seen(data, w, n, ppt, p, x + 1, y) == (column_seen(data, w, n, ppt, p, x, y) || (x
            % ppt == p && used_at(data, w, x, y))),
        row_seen(data, w, n, ppt, p, x + 1, y) == (row_seen(data, w, n, ppt, p, x, y) || (y % ppt
            == p && used_at(data, w, x, y))),
{
}

proof fn lemma_seen_row(data: Seq<u8>, w: int, n: int, ppt: int, p: int, y: int)
    ensures
        column_seen(data, w, n, ppt, p, n, y) == column_seen(data, w, n, ppt, p, 0, y + 1),
        row_seen(data, w, n, ppt, p, n, y) == row_seen(data, w, n, ppt, p, 0, y + 1),
{
}

/// Which columns and rows of a tile some tile uses.
fn find_used(image: &Raster, n: usize, ppt: usize) -> (used: (Vec<bool>, Vec<bool>))
    requires
        image.wf(),
        n <= image.width,
        n <= image.height,
        n > 0 ==> ppt > 0,
    ensures
        used.0@.len() == ppt,
        used.1@.len() == ppt,
        forall|p: int|
            0 <= p < ppt ==> #[trigger] used.0@[p] == column_used(
                image.data@,
                image.width as int,
                n as int,
                ppt as int,
                p,
            ),
        forall|p: int|
            0 <= p < ppt ==> #[trigger] used.1@[p] == row_used(
                image.data@,
                image.width as int,
                n as int,
                ppt as int,
                p,
            ),
{
    let mut used_x: Vec<bool> = vec![false; ppt];
    let mut used_y: Vec<bool> = vec![false; ppt];
    let w: usize = image.width as usize;
    let ghost data = image.data@;
    let data_words: &[[u8; 4]] = words(image.data.as_slice());
    let mut y: usize = 0;
    while y < n
        invariant
            y <= n,
            n > 0 ==> ppt > 0,
            n <= image.width,
            n <= image.height,
            w == image.width,
            image.wf(),
            data == image.data@,
            data_words@.len() * 4 == data.len(),
            forall|i: int|
                0 <= i < data_words@.len() ==> (#[trigger] data_words@[i])@ == data.subrange(
                    4 * i,
                    4 * i + 4,
                ),
            used_x@.len() == ppt,
            used_y@.len() == ppt,
            forall|p: int|
                0 <= p < ppt ==> #[trigger] used_x@[p] == column_seen(
                    data,
                    w as int,
                    n as int,
                    ppt as int,
                    p,
                    0,
                    y as int,
                ),
            forall|p: int|
                0 <= p < ppt ==> #[trigger] used_y@[p] == row_seen(
                    data,
                    w as int,
                    n as int,
                    ppt as int,
                    p,
                    0,
                    y as int,
                ),
        decreases n - y,
    {
        let mut x: usize = 0;
        while x < n
            invariant
                x <= n,
                y < n,
                ppt > 0,
                n <= image.width,
                n <= image.height,
                w == image.width,
                image.wf(),
                data == image.data@,
                data_words@.len() * 4 == data.len(),
                forall|i: int|
                    0 <= i < data_words@.len() ==> (#[trigger] data_words@[i])@ == data.subrange(
                        4 * i,
                        4 * i + 4,
                    ),
                used_x@.len() == ppt,
                used_y@.len() == ppt,
                forall|p: int|
                    0 <= p < ppt ==> #[trigger] used_x@[p] == column_seen(
                        data,
                        w as int,
                        n as int,
                        ppt as int,
                        p,
                        x as int,
                        y as int,
                    ),
                forall|p: int|
                    0 <= p < ppt ==> #[trigger] used_y@[p] == row_seen(
                        data,
                        w as int,
                        n as int,
                        ppt as int,
                        p,
                        x as int,
                        y as int,
                    ),
            decreases n - x,
        {
            proof {
                lemma_texel_inside(w as int, image.height as int, x as int, y as int);
                assert(image.data.len() == data.len());
                assert forall|p: int| 0 <= p < ppt implies column_seen(
                    data,
                    w as int,
                    n as int,
                    ppt as int,
                    p,
                    x + 1,
                    y as int,
                ) == (#[trigger] used_x@[p] || (x as int % ppt as int == p && used_at(
                    data,
                    w as int,
                    x as int,
                    y as int,
                ))) by {
                    lemma_seen_step(data, w as int, n as int, ppt as int, p, x as int, y as int);
                }
                assert forall|p: int| 0 <= p < ppt implies row_seen(
                    data,
                    w as int,
                    n as int,
                    ppt as int,
                    p,
                    x + 1,
                    y as int,
                ) == (#[trigger] used_y@[p] || (y as int % ppt as int == p && used_at(
                    data,
                    w as int,
                    x as int,
                    y as int,
                ))) by {
                    lemma_seen_step(data, w as int, n as int, ppt as int, p, x as int, y as int);
                }
            }
            let at: usize = (y * w + x) * 2;
            let word: [u8; 4] = data_words[at];
            assert(word@ == data.subrange(4 * at, 4 * at + 4));
            if word[0] != 0 || word[1] != 0 || word[2] != 0 || word[3] != 0 {
                used_x[x % ppt] = true;
                used_y[y % ppt] = true;
            }
            x = x + 1;
        }
        proof {
            assert forall|p: int| 0 <= p < ppt implies #[trigger] used_x@[p] == column_seen(
                data,
                w as int,
                n as int,
                ppt as int,
                p,
                0,
                y + 1,
            ) by {
                lemma_seen_row(data, w as int, n as int, ppt as int, p, y as int);
            }
            assert forall|p: int| 0 <= p < ppt implies #[trigger] used_y@[p] == row_seen(
                data,
                w as int,
                n as int,
                ppt as int,
                p,
                0,
                y + 1,
            ) by {
                lemma_seen_row(data, w as int, n as int, ppt as int, p, y as int);
            }
        }
        y = y + 1;
    }
    (used_x, used_y)
}

/// The outermost positions at which `used` is set, and zeros where it is nowhere.
fn outermost(used: &Vec<bool>, Ghost(holds): Ghost<spec_fn(int) -> bool>) -> (ends: (usize, usize))
    requires
        forall|p: int| 0 <= p < used@.len() ==> #[trigger] used@[p] == holds(p),
    ensures
        are_bounds(holds, used@.len() as int, ends.0 as int, ends.1 as int),
        ends.0 <= ends.1,
        ends.1 < used@.len() || ends.1 == 0,
{
    let mut first: usize = 0;
    let mut last: usize = 0;
    let mut found: bool = false;
    let mut p: usize = 0;
    while p < used.len()
        invariant
            p <= used@.len(),
            forall|q: int| 0 <= q < used@.len() ==> #[trigger] used@[q] == holds(q),
            !found ==> first == 0 && last == 0,
            !found ==> forall|q: int| 0 <= q < p ==> !#[trigger] used@[q],
            found ==> first <= last < p && used@[first as int] && used@[last as int],
            found ==> forall|q: int| 0 <= q < p && #[trigger] used@[q] ==> first <= q <= last,
        decreases used@.len() - p,
    {
        if used[p] {
            if !found {
                first = p;
                found = true;
            }
            last = p;
        }
        p = p + 1;
    }
    proof {
        if found {
            assert(holds(first as int));
        }
        assert forall|q: int| 0 <= q < used@.len() && #[trigger] holds(q) implies used@[q] by {}
    }
    (first, last)
}

/// Where byte `k` of the trimmed raster comes from.
spec fn source_of(
    w: int,
    ppt: int,
    offset: (u32, u32),
    size: (u32, u32),
    grid: int,
    k: int,
) -> int {
    let row = size.0 * grid;
    source_pos(w, ppt, offset, size, (k / 8) % row, (k / 8) / row, k % 8)
}

/// Byte `j` of the part of row `y` that tile column `gx` gives.
proof fn lemma_segment_source(
    w: int,
    ppt: int,
    offset: (u32, u32),
    size: (u32, u32),
    grid: int,
    gx: int,
    y: int,
    j: int,
)
    requires
        size.0 >= 1,
        size.1 >= 1,
        0 <= gx < grid,
        0 <= y,
        0 <= j < size.0 * 8,
    ensures
        ({
            let row = size.0 * grid;
            let k = (y * row + gx * size.0) * 8 + j;
            let sy = (y / size.1 as int) * ppt + offset.1 + y % size.1 as int;
            source_of(w, ppt, offset, size, grid, k) == (sy * w + (gx * ppt + offset.0)) * 8 + j
        }),
{
    let xc = size.0 as int;
    let row = xc * grid;
    let x = gx * xc + j / 8;
    let k = (y * row + gx * xc) * 8 + j;
    assert(k / 8 == y * row + x);
    assert(k % 8 == j % 8);
    assert(0 <= x < row) by (nonlinear_arith)
        requires
            x == gx * xc + j / 8,
            row == xc * grid,
            0 <= gx < grid,
            0 <= j / 8 < xc,
    ;
    vstd::arithmetic::div_mod::lemma_fundamental_div_mod_converse(y * row + x, row, y, x);
    vstd::arithmetic::div_mod::lemma_fundamental_div_mod_converse(x, xc, gx, j / 8);
}

proof fn lemma_source_row(y: int, yc: int, grid: int, ppt: int, oy: int, h: int)
    requires
        0 <= y < yc * grid,
        yc >= 1,
        0 <= oy,
        oy + yc <= ppt || (ppt == 0 && oy == 0 && yc == 1),
        grid * ppt <= h,
        h > 0,
        0 <= ppt,
        0 < grid,
    ensures
        0 <= (y / yc) * ppt + oy + y % yc < h,
        0 <= (y / yc) * ppt,
        0 <= y / yc < grid,
{
    let g = y / yc;
    assert(0 <= g < grid) by (nonlinear_arith)
        requires
            g == y / yc,
            0 <= y < yc * grid,
            yc >= 1,
    ;
    assert(0 <= y % yc < yc);
    assert(0 <= g * ppt) by (nonlinear_arith)
        requires
            0 <= g,
            0 <= ppt,
    ;
    if ppt > 0 {
        assert(g * ppt + ppt <= grid * ppt) by (nonlinear_arith)
            requires
                g + 1 <= grid,
                ppt > 0,
        ;
    } else {
        assert(g * ppt == 0) by (nonlinear_arith)
            requires
                ppt == 0,
        ;
    }
}

/// The bytes of the trimmed raster.
fn trimmed_bytes(
    image: &Raster,
    grid: usize,
    ppt: usize,
    offset: (u32, u32),
    size: (u32, u32),
) -> (out: Vec<u8>)
    requires
        image.wf(),
        image.width > 0,
        image.height > 0,
        grid > 0,
        grid * ppt <= image.width,
        grid * ppt <= image.height,
        size.0 >= 1,
        size.1 >= 1,
        offset.0 + size.0 <= ppt || (ppt == 0 && offset.0 == 0 && size.0 == 1),
        offset.1 + size.1 <= ppt || (ppt == 0 && offset.1 == 0 && size.1 == 1),
        size.0 * grid <= u32::MAX,
        size.1 * grid <= u32::MAX,
        size.0 * grid <= usize::MAX,
        size.1 * grid <= usize::MAX,
    ensures
        out@.len() == (size.0 * grid) * (size.1 * grid) * 8,
        forall|k: int|
            0 <= k < out@.len() ==> #[trigger] out@[k] == image.data@[source_of(
                image.width as int,
                ppt as int,
                offset,
                size,
                grid as int,
                k,
            )],
{
    let w: usize = image.width as usize;
    let xc: usize = size.0 as usize;
    let yc: usize = size.1 as usize;
    let ghost row = (size.0 * grid) as int;
    let rows: usize = yc * grid;
    let mut out: Vec<u8> = Vec::new();
    let mut y: usize = 0;
    assert(0 * row * 8 == 0) by (nonlinear_arith);
    while y < rows
        invariant
            y <= rows,
            rows == size.1 * grid,
            row == size.0 * grid,
            w == image.width,
            xc == size.0,
            yc == size.1,
            image.wf(),
            image.width > 0,
            image.height > 0,
            grid > 0,
            grid * ppt <= image.width,
            grid * ppt <= image.height,
            size.0 >= 1,
            size.1 >= 1,
            offset.0 + size.0 <= ppt || (ppt == 0 && offset.0 == 0 && size.0 == 1),
            offset.1 + size.1 <= ppt || (ppt == 0 && offset.1 == 0 && size.1 == 1),
            out@.len() == y * row * 8,
            forall|k: int|
                0 <= k < out@.len() ==> #[trigger] out@[k] == image.data@[source_of(
                    w as int,
                    ppt as int,
                    offset,
                    size,
                    grid as int,
                    k,
                )],
        decreases rows - y,
    {
        proof {
            lemma_source_row(
                y as int,
                yc as int,
                grid as int,
                ppt as int,
                offset.1 as int,
                image.height as int,
            );
        }
        let ghost sy = (y as int / yc as int) * ppt + offset.1 + y as int % yc as int;
        let source_y: usize = (y / yc) * ppt + offset.1 as usize + y % yc;
        let mut gx: usize = 0;
        assert((y * row + 0 * xc) * 8 == y * row * 8) by (nonlinear_arith);
        while gx < grid
            invariant
                gx <= grid,
                y < rows,
                row == size.0 * grid,
                w == image.width,
                xc == size.0,
                image.wf(),
                image.width > 0,
                grid > 0,
                grid * ppt <= image.width,
                size.0 >= 1,
                size.1 >= 1,
                offset.0 + size.0 <= ppt || (ppt == 0 && offset.0 == 0 && size.0 == 1),
                sy == (y as int / size.1 as int) * ppt + offset.1 + y as int % size.1 as int,
                source_y == sy,
                0 <= sy < image.height,
                out@.len() == (y * row + gx * xc) * 8,
                forall|k: int|
                    0 <= k < out@.len() ==> #[trigger] out@[k] == image.data@[source_of(
                        w as int,
                        ppt as int,
                        offset,
                        size,
                        grid as int,
                        k,
                    )],
            decreases grid - gx,
        {
            let ghost was = out@;
            proof {
                lemma_segment_fits(
                    w as int,
                    image.height as int,
                    grid as int,
                    ppt as int,
                    offset.0 as int,
                    xc as int,
                    gx as int,
                    sy,
                );
                assert(image.data.len() == image.data@.len());
                assert(0 <= gx * ppt) by (nonlinear_arith);
                assert(gx * ppt <= grid * ppt) by (nonlinear_arith)
                    requires
                        gx <= grid,
                ;
                assert(0 <= sy * w) by (nonlinear_arith)
                    requires
                        0 <= sy,
                        0 <= w,
                ;
            }
            let start: usize = (source_y * w + (gx * ppt + offset.0 as usize)) * 8;
            let segment: &[u8] = vstd::slice::slice_subrange(
                image.data.as_slice(),
                start,
                start + xc * 8,
            );
            out.extend_from_slice(segment);
            proof {
                assert((y * row + (gx + 1) * xc) * 8 == (y * row + gx * xc) * 8 + xc * 8)
                    by (nonlinear_arith);
                assert forall|k: int| 0 <= k < out@.len() implies #[trigger] out@[k]
                    == image.data@[source_of(
                    w as int,
                    ppt as int,
                    offset,
                    size,
                    grid as int,
                    k,
                )] by {
                    if k < was.len() {
                        assert(out@[k] == was[k]);
                    } else {
                        let j = k - was.len();
                        lemma_segment_source(
                            w as int,
                            ppt as int,
                            offset,
                            size,
                            grid as int,
                            gx as int,
                            y as int,
                            j,
                        );
                        assert(segment@[j] == image.data@[start + j]);
                    }
                }
            }
            gx = gx + 1;
        }
        proof {
            assert((y * row + grid * xc) * 8 == (y + 1) * row * 8) by (nonlinear_arith)
                requires
                    row == xc * grid,
            ;
        }
        y = y + 1;
    }
    proof {
        assert(rows * row * 8 == row * rows * 8) by (nonlinear_arith);
    }
    out
}

proof fn lemma_segment_fits(
    w: int,
    h: int,
    grid: int,
    ppt: int,
    ox: int,
    xc: int,
    gx: int,
    sy: int,
)
    requires
        0 < w,
        0 <= sy < h,
        0 <= gx < grid,
        grid * ppt <= w,
        0 <= ox,
        1 <= xc,
        0 <= ppt,
        ox + xc <= ppt || (ppt == 0 && ox == 0 && xc == 1),
    ensures
        0 <= (sy * w + (gx * ppt + ox)) * 8,
        (sy * w + (gx * ppt + ox)) * 8 + xc * 8 <= w * h * 8,
        gx * ppt + ox + xc <= w,
{
    if ppt > 0 {
        assert(gx * ppt + ppt <= grid * ppt) by (nonlinear_arith)
            requires
                gx + 1 <= grid,
                ppt > 0,
        ;
    } else {
        assert(gx * ppt == 0) by (nonlinear_arith)
            requires
                ppt == 0,
        ;
    }
    assert(0 <= gx * ppt) by (nonlinear_arith)
        requires
            0 <= gx,
            0 <= ppt,
    ;
    let e = gx * ppt + ox + xc;
    assert(sy * w + e <= w * h) by (nonlinear_arith)
        requires
            0 <= sy < h,
            e <= w,
            0 < w,
    ;
    assert(0 <= sy * w) by (nonlinear_arith)
        requires
            0 <= sy,
            0 < w,
    ;
}

/// The first column or row and the number of them, from the outermost ones.
fn extent(used: &Vec<bool>, Ghost(holds): Ghost<spec_fn(int) -> bool>) -> (r: (u32, u32))
    requires
        used@.len() <= u32::MAX,
        forall|p: int| 0 <= p < used@.len() ==> #[trigger] used@[p] == holds(p),
    ensures
        r.1 >= 1,
        are_bounds(holds, used@.len() as int, r.0 as int, r.0 + r.1 - 1),
        r.0 + r.1 <= used@.len() || (used@.len() == 0 && r.0 == 0 && r.1 == 1),
{
    let ends: (usize, usize) = outermost(used, Ghost(holds));
    (ends.0 as u32, (ends.1 - ends.0) as u32 + 1)
}

/// Cuts the columns and rows off every tile that no tile uses. Returns what is
/// left, where in a tile it begins, and how large a tile is now.
pub fn pack_asset(grid_size: usize, image: &Raster) -> (r: (Raster, (u32, u32), (u32, u32)))
    requires
        image.wf(),
        image.width > 0,
        image.height > 0,
        0 < grid_size <= u32::MAX,
        grid_size * (image.width as int / grid_size as int) <= image.height,
        grid_size * grid_size * 8 <= usize::MAX,
    ensures
        is_tight(*image, grid_size as int, r.1, r.2),
        is_trimmed(*image, grid_size as int, r.1, r.2, r.0),
{
    let w: usize = image.width as usize;
    let ppt: usize = w / grid_size;
    proof {
        assert(grid_size * ppt <= w) by (nonlinear_arith)
            requires
                ppt == w as int / grid_size as int,
                grid_size > 0,
        ;
        if ppt == 0 {
            assert(grid_size * ppt == 0) by (nonlinear_arith)
                requires
                    ppt == 0,
            ;
        } else {
            assert(grid_size * ppt >= 1) by (nonlinear_arith)
                requires
                    grid_size > 0,
                    ppt > 0,
            ;
        }
    }
    let n: usize = grid_size * ppt;
    let used: (Vec<bool>, Vec<bool>) = find_used(image, n, ppt);
    let ghost columns = |px: int|
        column_used(image.data@, image.width as int, n as int, ppt as int, px);
    let ghost rows = |py: int| row_used(image.data@, image.width as int, n as int, ppt as int, py);
    let xs: (u32, u32) = extent(&used.0, Ghost(columns));
    let ys: (u32, u32) = extent(&used.1, Ghost(rows));
    let offset: (u32, u32) = (xs.0, ys.0);
    let size: (u32, u32) = (xs.1, ys.1);
    proof {
        if ppt > 0 {
            assert(size.0 * grid_size <= n) by (nonlinear_arith)
                requires
                    size.0 <= ppt,
                    n == grid_size * ppt,
                    grid_size > 0,
            ;
            assert(size.1 * grid_size <= n) by (nonlinear_arith)
                requires
                    size.1 <= ppt,
                    n == grid_size * ppt,
                    grid_size > 0,
            ;
        } else {
            assert(1 * grid_size == grid_size) by (nonlinear_arith);
        }
    }
    let data: Vec<u8> = trimmed_bytes(image, grid_size, ppt, offset, size);
    let packed: Raster = Raster {
        width: size.0 * grid_size as u32,
        height: size.1 * grid_size as u32,
        data,
    };
    proof {
        let pw = packed.width as int;
        assert forall|x: int, y: int, b: int|
            0 <= x < packed.width && 0 <= y < packed.height && 0 <= b
                < 8 implies #[trigger] packed.data@[byte_pos(pw, x, y, b)]
            == image.data@[source_pos(image.width as int, ppt as int, offset, size, x, y, b)] by {
            let k = byte_pos(pw, x, y, b);
            lemma_texel_inside(pw, packed.height as int, x, y);
            assert(k / 8 == y * pw + x);
            assert(k % 8 == b);
            vstd::arithmetic::div_mod::lemma_fundamental_div_mod_converse(y * pw + x, pw, y, x);
            assert(packed.data@[k] == image.data@[source_of(
                image.width as int,
                ppt as int,
                offset,
                size,
                grid_size as int,
                k,
            )]);
        }
    }
    (packed, offset, size)
}

/// Trimming keeps every texel of a tile that has a colour or an alpha.
pub proof fn law_trimming_keeps_what_is_used(
    image: Raster,
    grid: int,
    offset: (u32, u32),
    size: (u32, u32),
    packed: Raster,
    x: int,
    y: int,
    b: int,
)
    requires
        grid > 0,
        is_tight(image, grid, offset, size),
        is_trimmed(image, grid, offset, size, packed),
        0 <= x < grid * (image.width as int / grid),
        0 <= y < grid * (image.width as int / grid),
        used_at(image.data@, image.width as int, x, y),
        0 <= b < 8,
    ensures
        ({
            let ppt = image.width as int / grid;
            let px = (x / ppt) * size.0 + (x % ppt - offset.0);
            let py = (y / ppt) * size.1 + (y % ppt - offset.1);
            &&& 0 <= px < packed.width
            &&& 0 <= py < packed.height
            &&& packed.data@[byte_pos(packed.width as int, px, py, b)]
                == image.data@[byte_pos(image.width as int, x, y, b)]
        }),
{
    let w = image.width as int;
    let ppt = w / grid;
    let n = grid * ppt;
    assert(ppt > 0) by (nonlinear_arith)
        requires
            0 <= x < grid * ppt,
            grid > 0,
    ;
    let columns = |px: int| column_used(image.data@, w, n, ppt, px);
    let rows = |py: int| row_used(image.data@, w, n, ppt, py);
    assert(0 <= x % ppt < ppt && 0 <= y % ppt < ppt);
    assert(columns(x % ppt));
    assert(rows(y % ppt));
    lemma_tile_part(x, ppt, grid, size.0 as int, offset.0 as int);
    lemma_tile_part(y, ppt, grid, size.1 as int, offset.1 as int);
    let px = (x / ppt) * size.0 + (x % ppt - offset.0);
    let py = (y / ppt) * size.1 + (y % ppt - offset.1);
    assert(packed.data@[byte_pos(packed.width as int, px, py, b)] == image.data@[source_pos(
        w,
        ppt,
        offset,
        size,
        px,
        py,
        b,
    )]);
}

proof fn lemma_tile_part(x: int, ppt: int, grid: int, size: int, offset: int)
    requires
        0 < ppt,
        0 < grid,
        0 <= x < grid * ppt,
        1 <= size,
        offset <= x % ppt <= offset + size - 1,
    ensures
        ({
            let p = (x / ppt) * size + (x % ppt - offset);
            &&& 0 <= p < size * grid
            &&& (p / size) * ppt + offset + p % size == x
        }),
{
    let g = x / ppt;
    let r = x % ppt - offset;
    let p = g * size + r;
    vstd::arithmetic::div_mod::lemma_fundamental_div_mod(x, ppt);
    vstd::arithmetic::div_mod::lemma_fundamental_div_mod_converse(p, size, g, r);
    assert(0 <= g < grid) by (nonlinear_arith)
        requires
            g == x / ppt,
            0 <= x < grid * ppt,
            0 < ppt,
    ;
    assert(0 <= p < size * grid) by (nonlinear_arith)
        requires
            p == g * size + r,
            0 <= g < grid,
            0 <= r < size,
    ;
    assert(ppt * g == g * ppt) by (nonlinear_arith);
}

/// A texel of a tile is kept, with all its bytes, where any of its first four bytes is
/// not zero: in the same tile, as many columns and rows further in as were cut off
/// before it.
pub proof fn law_texels_with_a_colour_are_kept(
    image: Raster,
    grid: int,
    offset: (u32, u32),
    size: (u32, u32),
    packed: Raster,
    tile: (int, int),
    at: (int, int),
    c: int,
    b: int,
)
    requires
        grid > 0,
        is_tight(image, grid, offset, size),
        is_trimmed(image, grid, offset, size, packed),
        0 <= tile.0 < grid,
        0 <= tile.1 < grid,
        0 <= at.0 < image.width as int / grid,
        0 <= at.1 < image.width as int / grid,
        0 <= c < 4,
        0 <= b < 8,
        ({
            let ppt = image.width as int / grid;
            let x = tile.0 * ppt + at.0;
            let y = tile.1 * ppt + at.1;
            image.data@[(y * image.width + x) * 8 + c] != 0
        }),
    ensures
        offset.0 <= at.0 < offset.0 + size.0,
        offset.1 <= at.1 < offset.1 + size.1,
        ({
            let ppt = image.width as int / grid;
            let x = tile.0 * ppt + at.0;
            let y = tile.1 * ppt + at.1;
            let px = tile.0 * size.0 + (at.0 - offset.0);
            let py = tile.1 * size.1 + (at.1 - offset.1);
            packed.data@[(py * packed.width + px) * 8 + b] == image.data@[(y * image.width + x) * 8
                + b]
        }),
{
    let w = image.width as int;
    let ppt = w / grid;
    let n = grid * ppt;
    let x = tile.0 * ppt + at.0;
    let y = tile.1 * ppt + at.1;
    lemma_in_tile(tile.0, at.0, ppt, grid);
    lemma_in_tile(tile.1, at.1, ppt, grid);
    assert(used_at(image.data@, w, x, y)) by {
        assert(c == 0 || c == 1 || c == 2 || c == 3);
    }
    law_trimming_keeps_what_is_used(image, grid, offset, size, packed, x, y, b);
    let columns = |px: int| column_used(image.data@, w, n, ppt, px);
    let rows = |py: int| row_used(image.data@, w, n, ppt, py);
    assert(columns(at.0));
    assert(rows(at.1));
}

/// The column `at` of tile `tile` is a column of the image.
proof fn lemma_in_tile(tile: int, at: int, ppt: int, grid: int)
    requires
        0 <= tile < grid,
        0 <= at < ppt,
    ensures
        0 <= tile * ppt + at < grid * ppt,
        (tile * ppt + at) / ppt == tile,
        (tile * ppt + at) % ppt == at,
{
    vstd::arithmetic::div_mod::lemma_fundamental_div_mod_converse(tile * ppt + at, ppt, tile, at);
    assert(0 <= tile * ppt + at < grid * ppt) by (nonlinear_arith)
        requires
            0 <= tile < grid,
            0 <= at < ppt,
    ;
}

/// Where some texel of a tile has a colour or an alpha, no more is kept than is needed:
/// the first and the last column that are kept, and the first and the last row, each hold
/// such a texel of some tile. Otherwise a single texel of each tile is kept, the first.
pub proof fn law_no_more_is_kept_than_is_used(
    image: Raster,
    grid: int,
    offset: (u32, u32),
    size: (u32, u32),
)
    requires
        grid > 0,
        is_tight(image, grid, offset, size),
    ensures
        size.0 >= 1 && size.1 >= 1,
        ({
            let w = image.width as int;
            let n = grid * (w / grid);
            if exists|x: int, y: int| 0 <= x < n && 0 <= y < n && has_colour(image, x, y) {
                &&& uses_column(image, grid, offset.0 as int)
                &&& uses_column(image, grid, offset.0 + size.0 - 1)
                &&& uses_row(image, grid, offset.1 as int)
                &&& uses_row(image, grid, offset.1 + size.1 - 1)
            } else {
                offset == (0u32, 0u32) && size == (1u32, 1u32)
            }
        }),
{
    let w = image.width as int;
    let ppt = w / grid;
    let n = grid * ppt;
    let data = image.data@;
    let columns = |px: int| column_used(data, w, n, ppt, px);
    let rows = |py: int| row_used(data, w, n, ppt, py);
    if exists|x: int, y: int| 0 <= x < n && 0 <= y < n && has_colour(image, x, y) {
        let (x, y) = choose|x: int, y: int| 0 <= x < n && 0 <= y < n && has_colour(image, x, y);
        assert(ppt > 0) by (nonlinear_arith)
            requires
                0 <= x < grid * ppt,
                grid > 0,
        ;
        assert(used_at(data, w, x, y));
        assert(0 <= x % ppt < ppt && 0 <= y % ppt < ppt);
        assert(columns(x % ppt) && rows(y % ppt));
        lemma_uses_column(image, grid, offset.0 as int);
        lemma_uses_column(image, grid, offset.0 + size.0 - 1);
        lemma_uses_row(image, grid, offset.1 as int);
        lemma_uses_row(image, grid, offset.1 + size.1 - 1);
    } else {
        assert forall|p: int| 0 <= p < ppt implies !(#[trigger] columns(p)) by {
            if column_used(data, w, n, ppt, p) {
                let (x, y) = choose|x: int, y: int|
                    0 <= x < n && 0 <= y < n && x % ppt == p && #[trigger] used_at(data, w, x, y);
                assert(has_colour(image, x, y));
            }
        }
        assert forall|p: int| 0 <= p < ppt implies !(#[trigger] rows(p)) by {
            if row_used(data, w, n, ppt, p) {
                let (x, y) = choose|x: int, y: int|
                    0 <= x < n && 0 <= y < n && y % ppt == p && #[trigger] used_at(data, w, x, y);
                assert(has_colour(image, x, y));
            }
        }
    }
}

/// One of the first four bytes of the texel is not zero.
pub open spec fn has_colour(image: Raster, x: int, y: int) -> bool {
    exists|c: int| 0 <= c < 4 && #[trigger] image.data@[(y * image.width + x) * 8 + c] != 0
}

/// Some tile has a texel with a colour or an alpha in its column `p`.
pub open spec fn uses_column(image: Raster, grid: int, p: int) -> bool {
    let ppt = image.width as int / grid;
    exists|x: int, y: int|
        0 <= x < grid * ppt && 0 <= y < grid * ppt && x % ppt == p && #[trigger] has_colour(
            image,
            x,
            y,
        )
}

/// Some tile has a texel with a colour or an alpha in its row `p`.
pub open spec fn uses_row(image: Raster, grid: int, p: int) -> bool {
    let ppt = image.width as int / grid;
    exists|x: int, y: int|
        0 <= x < grid * ppt && 0 <= y < grid * ppt && y % ppt == p && #[trigger] has_colour(
            image,
            x,
            y,
        )
}

proof fn lemma_colour(image: Raster, x: int, y: int)
    requires
        used_at(image.data@, image.width as int, x, y),
    ensures
        has_colour(image, x, y),
{
    let at = (y * image.width + x) * 8;
    let c: int = if image.data@[at] != 0 {
        0
    } else if image.data@[at + 1] != 0 {
        1
    } else if image.data@[at + 2] != 0 {
        2
    } else {
        3
    };
    assert(image.data@[at + c] != 0);
}

proof fn lemma_uses_column(image: Raster, grid: int, p: int)
    requires
        ({
            let w = image.width as int;
            column_used(image.data@, w, grid * (w / grid), w / grid, p)
        }),
    ensures
        uses_column(image, grid, p),
{
    let w = image.width as int;
    let ppt = w / grid;
    let n = grid * ppt;
    let (x, y) = choose|x: int, y: int|
        0 <= x < n && 0 <= y < n && x % ppt == p && #[trigger] used_at(image.data@, w, x, y);
    lemma_colour(image, x, y);
}

proof fn lemma_uses_row(image: Raster, grid: int, p: int)
    requires
        ({
            let w = image.width as int;
            row_used(image.data@, w, grid * (w / grid), w / grid, p)
        }),
    ensures
        uses_row(image, grid, p),
{
    let w = image.width as int;
    let ppt = w / grid;
    let n = grid * ppt;
    let (x, y) = choose|x: int, y: int|
        0 <= x < n && 0 <= y < n && y % ppt == p && #[trigger] used_at(image.data@, w, x, y);
    lemma_colour(image, x, y);
}

} // verus!
