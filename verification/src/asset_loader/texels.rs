//! Texels looked up by index: the distinct texels of an image in order, and for
//! each pixel the number of its texel.

use vstd::prelude::*;

use crate::planes;
use crate::sort;
use crate::texel;

verus! {

/// The four bytes from `at` on, the first one highest.
pub open spec fn high_word(texel: Seq<u8>, at: int) -> u32 {
    (texel[at + 3] + 0x100 * texel[at + 2] + 0x1_0000 * texel[at + 1] + 0x100_0000
        * texel[at]) as u32
}

/// A texel as an integer that orders texels by their first byte, then by their
/// second, and so on.
#[verifier::opaque]
pub open spec fn order_key(texel: Seq<u8>) -> u64 {
    (high_word(texel, 4) + 0x1_0000_0000 * high_word(texel, 0)) as u64
}

/// `packs` are the texels that the bytes hold.
pub open spec fn are_packs(data: Seq<u8>, packs: Seq<[u8; 8]>) -> bool {
    &&& packs.len() == data.len() as int / 8
    &&& forall|i: int|
        0 <= i < packs.len() ==> (#[trigger] packs[i])@ == data.subrange(8 * i, 8 * i + 8)
}

/// The texels that the bytes hold; what is left at the end is dropped.
pub fn split_packs(data: &Vec<u8>) -> (packs: Vec<[u8; 8]>)
    ensures
        are_packs(data@, packs@),
{
    let n: usize = data.len() / 8;
    let mut packs: Vec<[u8; 8]> = Vec::new();
    let mut i: usize = 0;
    while i < n
        invariant
            i <= n,
            n == data@.len() as int / 8,
            packs@.len() == i,
            forall|j: int|
                0 <= j < i ==> (#[trigger] packs@[j])@ == data@.subrange(8 * j, 8 * j + 8),
        decreases n - i,
    {
        assert(data.len() == data@.len());
        let o: usize = 8 * i;
        let pack: [u8; 8] = [
            data[o],
            data[o + 1],
            data[o + 2],
            data[o + 3],
            data[o + 4],
            data[o + 5],
            data[o + 6],
            data[o + 7],
        ];
        assert(pack@ =~= data@.subrange(8 * i, 8 * i + 8));
        packs.push(pack);
        i = i + 1;
    }
    packs
}

fn texel_key(texel: &[u8; 8]) -> (k: u64)
    ensures
        k == order_key(texel@),
{
    reveal(order_key);
    let low: u32 = texel[7] as u32 + 0x100 * texel[6] as u32 + 0x1_0000 * texel[5] as u32
        + 0x100_0000 * texel[4] as u32;
    let high: u32 = texel[3] as u32 + 0x100 * texel[2] as u32 + 0x1_0000 * texel[1] as u32
        + 0x100_0000 * texel[0] as u32;
    low as u64 + 0x1_0000_0000 * high as u64
}

proof fn lemma_word_bytes(texel: Seq<u8>, at: int)
    ensures
        texel[at + 3] == high_word(texel, at) % 0x100,
        texel[at + 2] == (high_word(texel, at) / 0x100) % 0x100,
        texel[at + 1] == (high_word(texel, at) / 0x1_0000) % 0x100,
        texel[at] == high_word(texel, at) / 0x100_0000,
{
    texel::lemma_digits(
        texel[at + 3],
        texel[at + 2],
        texel[at + 1],
        texel[at],
        high_word(texel, at) as int,
    );
}

proof fn lemma_key_words(texel: Seq<u8>)
    ensures
        high_word(texel, 4) == order_key(texel) % 0x1_0000_0000,
        high_word(texel, 0) == order_key(texel) / 0x1_0000_0000,
{
    reveal(order_key);
    let lo = high_word(texel, 4) as int;
    let hi = high_word(texel, 0) as int;
    assert((lo + 0x1_0000_0000 * hi) % 0x1_0000_0000 == lo) by (nonlinear_arith)
        requires
            0 <= lo < 0x1_0000_0000,
    ;
    assert((lo + 0x1_0000_0000 * hi) / 0x1_0000_0000 == hi) by (nonlinear_arith)
        requires
            0 <= lo < 0x1_0000_0000,
    ;
}

/// Texels with the same key are the same.
pub proof fn lemma_order_key_injective(a: Seq<u8>, b: Seq<u8>)
    requires
        a.len() == 8,
        b.len() == 8,
        order_key(a) == order_key(b),
    ensures
        a == b,
{
    lemma_key_words(a);
    lemma_key_words(b);
    lemma_word_bytes(a, 0);
    lemma_word_bytes(b, 0);
    lemma_word_bytes(a, 4);
    lemma_word_bytes(b, 4);
    assert(a =~= b);
}

/// `distinct` are the texels of the image, each once, in ascending order.
pub open spec fn is_texel_list(packs: Seq<[u8; 8]>, distinct: Seq<[u8; 8]>) -> bool {
    &&& forall|i: int, j: int|
        0 <= i < j < distinct.len() ==> order_key((#[trigger] distinct[i])@) < order_key(
            (#[trigger] distinct[j])@,
        )
    &&& forall|i: int|
        0 <= i < distinct.len() ==> exists|j: int|
            0 <= j < packs.len() && packs[j] == #[trigger] distinct[i]
}

/// `numbers` gives each texel of the image its number in the list.
pub open spec fn are_numbers(
    packs: Seq<[u8; 8]>,
    distinct: Seq<[u8; 8]>,
    numbers: Seq<usize>,
) -> bool {
    &&& numbers.len() == packs.len()
    &&& forall|j: int|
        0 <= j < packs.len() ==> (#[trigger] numbers[j]) < distinct.len()
            && distinct[numbers[j] as int]@ == packs[j]@
}

/// The texels that the bytes hold, each once.
pub open spec fn texels_in(data: Seq<u8>) -> Set<Seq<u8>> {
    Seq::new((data.len() as int / 8) as nat, |i: int| data.subrange(8 * i, 8 * i + 8)).to_set()
}

/// The list of the texels is no longer than there are texels.
pub proof fn lemma_list_length(data: Seq<u8>, packs: Seq<[u8; 8]>, distinct: Seq<[u8; 8]>)
    requires
        are_packs(data, packs),
        is_texel_list(packs, distinct),
    ensures
        distinct.len() <= texels_in(data).len(),
{
    let all = Seq::new((data.len() as int / 8) as nat, |i: int| data.subrange(8 * i, 8 * i + 8));
    let listed = Seq::new(distinct.len(), |i: int| distinct[i]@);
    assert forall|i: int, j: int|
        0 <= i < listed.len() && 0 <= j < listed.len() && i != j implies listed[i] != listed[j] by {
        if i < j {
            assert(order_key(distinct[i]@) < order_key(distinct[j]@));
        } else {
            assert(order_key(distinct[j]@) < order_key(distinct[i]@));
        }
    }
    assert forall|t: Seq<u8>| #[trigger] listed.to_set().contains(t) implies all.to_set().contains(
        t,
    ) by {
        let i = choose|i: int| 0 <= i < listed.len() && listed[i] == t;
        let j = choose|j: int| 0 <= j < packs.len() && packs[j] == #[trigger] distinct[i];
        assert(all[j] == packs[j]@);
    }
    listed.unique_seq_to_set();
    vstd::seq_lib::seq_to_set_is_finite(all);
    vstd::set_lib::lemma_len_subset(listed.to_set(), all.to_set());
}

/// Some texel of the image is this one.
spec fn occurs(packs: Seq<[u8; 8]>, texel: [u8; 8]) -> bool {
    exists|j: int| 0 <= j < packs.len() && #[trigger] packs[j] == texel
}

/// The distinct texels of an image, and the number of each pixel's texel.
pub fn number_texels(packs: &Vec<[u8; 8]>) -> (r: (Vec<[u8; 8]>, Vec<usize>))
    ensures
        is_texel_list(packs@, r.0@),
        are_numbers(packs@, r.0@, r.1@),
{
    let n: usize = packs.len();
    let mut keys: Vec<u64> = Vec::new();
    let mut i: usize = 0;
    while i < n
        invariant
            i <= n,
            n == packs@.len(),
            keys@.len() == i,
            forall|j: int| 0 <= j < i ==> #[trigger] keys@[j] == order_key(packs@[j]@),
        decreases n - i,
    {
        keys.push(texel_key(&packs[i]));
        i = i + 1;
    }
    let order: Vec<usize> = sort::stable_order(&keys);
    let mut distinct: Vec<[u8; 8]> = Vec::new();
    let mut numbers: Vec<usize> = vec![0; n];
    let mut i: usize = 0;
    while i < n
        invariant
            i <= n,
            n == packs@.len(),
            n == keys@.len(),
            n == order@.len(),
            n == numbers@.len(),
            sort::is_stable_order(keys@, order@),
            forall|j: int| 0 <= j < n ==> #[trigger] keys@[j] == order_key(packs@[j]@),
            distinct@.len() <= i,
            i > 0 ==> distinct@.len() > 0 && order_key(distinct@.last()@) == keys@[order@[i - 1] as int],
            forall|a: int, b: int|
                0 <= a < b < distinct@.len() ==> order_key((#[trigger] distinct@[a])@) < order_key(
                    (#[trigger] distinct@[b])@,
                ),
            forall|a: int| 0 <= a < distinct@.len() ==> occurs(packs@, #[trigger] distinct@[a]),
            forall|j: int|
                0 <= j < i ==> numbers@[(#[trigger] order@[j]) as int] < distinct@.len()
                    && order_key(distinct@[numbers@[order@[j] as int] as int]@)
                    == keys@[order@[j] as int],
        decreases n - i,
    {
        let at: usize = order[i];
        let ghost was = distinct@;
        let ghost old_numbers = numbers@;
        let fresh: bool = i == 0 || keys[at] != keys[order[i - 1]];
        if fresh {
            proof {
                if i > 0 {
                    assert(sort::sorts_before(keys@, order@[i - 1] as int, order@[i as int] as int));
                }
                assert(occurs(packs@, packs@[at as int]));
            }
            distinct.push(packs[at]);
        }
        numbers[at] = distinct.len() - 1;
        proof {
            assert forall|j: int| 0 <= j < i implies order@[j] != at by {
                assert(sort::sorts_before(keys@, order@[j] as int, order@[i as int] as int));
            }
            assert forall|j: int| 0 <= j < i + 1 implies numbers@[(#[trigger] order@[j]) as int]
                < distinct@.len() && order_key(distinct@[numbers@[order@[j] as int] as int]@)
                == keys@[order@[j] as int] by {
                if j < i {
                    assert(numbers@[order@[j] as int] == old_numbers[order@[j] as int]);
                    assert(distinct@[numbers@[order@[j] as int] as int]
                        == was[numbers@[order@[j] as int] as int]);
                }
            }
        }
        i = i + 1;
    }
    proof {
        assert forall|j: int| 0 <= j < n implies (#[trigger] numbers@[j]) < distinct@.len()
            && distinct@[numbers@[j] as int]@ == packs@[j]@ by {
            assert(keys.len() == keys@.len());
            assert(order@.contains(j as usize));
            let p = choose|p: int| 0 <= p < order@.len() && order@[p] == j as usize;
            assert(numbers@[order@[p] as int] < distinct@.len());
            lemma_order_key_injective(distinct@[numbers@[j] as int]@, packs@[j]@);
        }
        assert forall|a: int| 0 <= a < distinct@.len() implies exists|j: int|
            0 <= j < packs@.len() && packs@[j] == #[trigger] distinct@[a] by {
            assert(occurs(packs@, distinct@[a]));
        }
    }
    (distinct, numbers)
}

/// The bytes in a row of `w` numbers, which are two bytes long where `short`
/// says so, and four otherwise; a row ends with a whole word.
pub open spec fn row_len(w: int, short: bool) -> int {
    if short {
        4 * ((w + 1) / 2)
    } else {
        4 * w
    }
}

/// Byte `c` of row `y` of the numbers, the lowest byte of each first; zero
/// beyond the last.
pub open spec fn number_byte(numbers: Seq<usize>, w: int, short: bool, y: int, c: int) -> int {
    if short {
        if c / 2 < w {
            let n = numbers[y * w + c / 2] as int % 0x1_0000;
            if c % 2 == 0 {
                n % 0x100
            } else {
                n / 0x100
            }
        } else {
            0
        }
    } else {
        let n = numbers[y * w + c / 4] as int % 0x1_0000_0000;
        if c % 4 == 0 {
            n % 0x100
        } else if c % 4 == 1 {
            (n / 0x100) % 0x100
        } else if c % 4 == 2 {
            (n / 0x1_0000) % 0x100
        } else {
            n / 0x100_0000
        }
    }
}

/// `data` are the bytes of the numbers.
pub open spec fn is_number_data(
    numbers: Seq<usize>,
    w: int,
    h: int,
    short: bool,
    data: Seq<u8>,
) -> bool {
    &&& data.len() == row_len(w, short) * h
    &&& forall|y: int, c: int|
        0 <= y < h && 0 <= c < row_len(w, short) ==> #[trigger] planes::at(
            data,
            row_len(w, short),
            y,
            c,
        ) == number_byte(numbers, w, short, y, c)
}

fn byte_of(
    numbers: &Vec<usize>,
    w: usize,
    short: bool,
    y: usize,
    c: usize,
    Ghost(h): Ghost<int>,
) -> (b: u8)
    requires
        numbers@.len() == w * h,
        y < h,
        c < row_len(w as int, short),
    ensures
        b == number_byte(numbers@, w as int, short, y as int, c as int),
{
    let per: usize = if short {
        2
    } else {
        4
    };
    let x: usize = c / per;
    if x >= w {
        return 0;
    }
    proof {
        planes::lemma_in_rows(w as int, h, y as int, x as int);
        assert(numbers.len() == numbers@.len());
    }
    let n: u64 = numbers[y * w + x] as u64;
    if short {
        let v: u64 = n % 0x1_0000;
        if c % 2 == 0 {
            (v % 0x100) as u8
        } else {
            (v / 0x100) as u8
        }
    } else {
        let v: u64 = n % 0x1_0000_0000;
        if c % 4 == 0 {
            (v % 0x100) as u8
        } else if c % 4 == 1 {
            ((v / 0x100) % 0x100) as u8
        } else if c % 4 == 2 {
            ((v / 0x1_0000) % 0x100) as u8
        } else {
            (v / 0x100_0000) as u8
        }
    }
}

/// The bytes of the numbers.
pub fn number_bytes(numbers: &Vec<usize>, w: usize, h: usize, short: bool) -> (data: Vec<u8>)
    requires
        numbers@.len() == w * h,
        4 * w + 4 <= usize::MAX,
    ensures
        is_number_data(numbers@, w as int, h as int, short, data@),
{
    let row: usize = if short {
        4 * ((w + 1) / 2)
    } else {
        4 * w
    };
    let mut data: Vec<u8> = Vec::new();
    let mut y: usize = 0;
    while y < h
        invariant
            y <= h,
            row == row_len(w as int, short),
            numbers@.len() == w * h,
            data@.len() == y * row,
            forall|z: int, c: int|
                0 <= z < y && 0 <= c < row ==> #[trigger] planes::at(data@, row as int, z, c)
                    == number_byte(numbers@, w as int, short, z, c),
        decreases h - y,
    {
        let mut c: usize = 0;
        while c < row
            invariant
                y < h,
                c <= row,
                row == row_len(w as int, short),
                numbers@.len() == w * h,
                data@.len() == y * row + c,
                forall|z: int, d: int|
                    0 <= z && 0 <= d < row && (z < y || (z == y && d < c)) ==> #[trigger] planes::at(
                        data@,
                        row as int,
                        z,
                        d,
                    ) == number_byte(numbers@, w as int, short, z, d),
            decreases row - c,
        {
            let ghost was = data@;
            data.push(byte_of(numbers, w, short, y, c, Ghost(h as int)));
            proof {
                assert forall|z: int, d: int|
                    0 <= z && 0 <= d < row && (z < y || (z == y && d < c
                        + 1)) implies #[trigger] planes::at(data@, row as int, z, d)
                    == number_byte(numbers@, w as int, short, z, d) by {
                    if z < y || d < c {
                        planes::lemma_next_byte(
                            row as int,
                            y as int,
                            c as int,
                            was.len() as int,
                            z,
                            d,
                        );
                        assert(planes::at(was, row as int, z, d) == number_byte(
                            numbers@,
                            w as int,
                            short,
                            z,
                            d,
                        ));
                    }
                }
            }
            c = c + 1;
        }
        proof {
            assert((y + 1) * row == y * row + row) by (nonlinear_arith);
        }
        y = y + 1;
    }
    assert(h * row == row * h) by (nonlinear_arith);
    data
}

/// The number that is written for column `x` of row `y`.
pub open spec fn number_at(data: Seq<u8>, w: int, short: bool, y: int, x: int) -> int {
    let row = row_len(w, short);
    if short {
        planes::at(data, row, y, 2 * x) + 0x100 * planes::at(data, row, y, 2 * x + 1)
    } else {
        planes::at(data, row, y, 4 * x) + 0x100 * planes::at(data, row, y, 4 * x + 1) + 0x1_0000
            * planes::at(data, row, y, 4 * x + 2) + 0x100_0000 * planes::at(
            data,
            row,
            y,
            4 * x + 3,
        )
    }
}

/// The bytes of a short number make it up.
proof fn lemma_short_number(numbers: Seq<usize>, w: int, y: int, x: int)
    requires
        0 <= x < w,
        numbers[y * w + x] < 0x1_0000,
    ensures
        number_byte(numbers, w, true, y, 2 * x) + 0x100 * number_byte(
            numbers,
            w,
            true,
            y,
            2 * x + 1,
        ) == numbers[y * w + x],
{
    assert((2 * x) / 2 == x && (2 * x) % 2 == 0);
    assert((2 * x + 1) / 2 == x && (2 * x + 1) % 2 == 1);
    let n = numbers[y * w + x] as int;
    assert(n % 0x1_0000 == n);
}

/// The bytes of a long number make it up.
proof fn lemma_long_number(numbers: Seq<usize>, w: int, y: int, x: int)
    requires
        0 <= x < w,
        numbers[y * w + x] < 0x1_0000_0000,
    ensures
        number_byte(numbers, w, false, y, 4 * x) + 0x100 * number_byte(
            numbers,
            w,
            false,
            y,
            4 * x + 1,
        ) + 0x1_0000 * number_byte(numbers, w, false, y, 4 * x + 2) + 0x100_0000 * number_byte(
            numbers,
            w,
            false,
            y,
            4 * x + 3,
        ) == numbers[y * w + x],
{
    assert((4 * x) / 4 == x && (4 * x) % 4 == 0);
    assert((4 * x + 1) / 4 == x && (4 * x + 1) % 4 == 1);
    assert((4 * x + 2) / 4 == x && (4 * x + 2) % 4 == 2);
    assert((4 * x + 3) / 4 == x && (4 * x + 3) % 4 == 3);
    let n = numbers[y * w + x] as int;
    let p = n / 0x100;
    let q = p / 0x100;
    assert(n % 0x1_0000_0000 == n);
    assert(n == 0x100 * p + n % 0x100);
    assert(p == 0x100 * q + p % 0x100);
    assert(q == 0x100 * (q / 0x100) + q % 0x100);
    vstd::arithmetic::div_mod::lemma_div_denominator(n, 0x100, 0x100);
    vstd::arithmetic::div_mod::lemma_div_denominator(n, 0x1_0000, 0x100);
}

/// Looking the numbers that were written up in the list of texels gives the
/// image back.
pub proof fn law_numbered_texels_come_back(
    packs: Seq<[u8; 8]>,
    distinct: Seq<[u8; 8]>,
    numbers: Seq<usize>,
    w: int,
    h: int,
    short: bool,
    data: Seq<u8>,
    y: int,
    x: int,
)
    requires
        packs.len() == w * h,
        are_numbers(packs, distinct, numbers),
        distinct.len() <= if short {
            0x1_0000int
        } else {
            0x1_0000_0000
        },
        is_number_data(numbers, w, h, short, data),
        0 <= y < h,
        0 <= x < w,
    ensures
        0 <= number_at(data, w, short, y, x) < distinct.len(),
        distinct[number_at(data, w, short, y, x)]@ == packs[y * w + x]@,
{
    planes::lemma_in_rows(w, h, y, x);
    let n = numbers[y * w + x];
    assert(n < distinct.len());
    let row = row_len(w, short);
    if short {
        lemma_short_number(numbers, w, y, x);
        assert(planes::at(data, row, y, 2 * x) == number_byte(numbers, w, short, y, 2 * x));
        assert(planes::at(data, row, y, 2 * x + 1) == number_byte(numbers, w, short, y, 2 * x + 1));
    } else {
        lemma_long_number(numbers, w, y, x);
        assert(planes::at(data, row, y, 4 * x) == number_byte(numbers, w, short, y, 4 * x));
        assert(planes::at(data, row, y, 4 * x + 1) == number_byte(numbers, w, short, y, 4 * x + 1));
        assert(planes::at(data, row, y, 4 * x + 2) == number_byte(numbers, w, short, y, 4 * x + 2));
        assert(planes::at(data, row, y, 4 * x + 3) == number_byte(numbers, w, short, y, 4 * x + 3));
    }
}

/// Texels are ordered by the first byte in which they differ.
pub proof fn law_texels_are_ordered_by_their_bytes(a: Seq<u8>, b: Seq<u8>, i: int)
    requires
        a.len() == 8,
        b.len() == 8,
        0 <= i < 8,
        forall|j: int| 0 <= j < i ==> #[trigger] a[j] == b[j],
        a[i] < b[i],
    ensures
        order_key(a) < order_key(b),
{
    reveal(order_key);
    if i < 4 {
        assert(high_word(a, 0) < high_word(b, 0)) by {
            assert(i > 0 ==> a[0] == b[0]);
            assert(i > 1 ==> a[1] == b[1]);
            assert(i > 2 ==> a[2] == b[2]);
        }
    } else {
        assert(a[0] == b[0] && a[1] == b[1] && a[2] == b[2] && a[3] == b[3]);
        assert(high_word(a, 4) < high_word(b, 4)) by {
            assert(i > 4 ==> a[4] == b[4]);
            assert(i > 5 ==> a[5] == b[5]);
            assert(i > 6 ==> a[6] == b[6]);
        }
    }
}

/// A number is written with its lowest byte first, in two bytes where they are enough
/// and in four otherwise; a row has room for whole words.
pub proof fn law_numbers_are_written_lowest_byte_first(
    numbers: Seq<usize>,
    w: int,
    h: int,
    short: bool,
    data: Seq<u8>,
    y: int,
    x: int,
)
    requires
        is_number_data(numbers, w, h, short, data),
        0 <= y < h,
        0 <= x < w,
        numbers[y * w + x] < if short {
            0x1_0000int
        } else {
            0x1_0000_0000
        },
    ensures
        short ==> ({
            let row = if w % 2 == 0 {
                2 * w
            } else {
                2 * w + 2
            };
            &&& data.len() == row * h
            &&& numbers[y * w + x] == data[y * row + 2 * x] + 0x100 * data[y * row + 2 * x + 1]
        }),
        !short ==> ({
            let row = 4 * w;
            &&& data.len() == row * h
            &&& numbers[y * w + x] == data[y * row + 4 * x] + 0x100 * data[y * row + 4 * x + 1]
                + 0x1_0000 * data[y * row + 4 * x + 2] + 0x100_0000 * data[y * row + 4 * x + 3]
        }),
{
    let row = row_len(w, short);
    if short {
        lemma_short_number(numbers, w, y, x);
        assert(planes::at(data, row, y, 2 * x) == number_byte(numbers, w, short, y, 2 * x));
        assert(planes::at(data, row, y, 2 * x + 1) == number_byte(numbers, w, short, y, 2 * x + 1));
    } else {
        lemma_long_number(numbers, w, y, x);
        assert(planes::at(data, row, y, 4 * x) == number_byte(numbers, w, short, y, 4 * x));
        assert(planes::at(data, row, y, 4 * x + 1) == number_byte(numbers, w, short, y, 4 * x + 1));
        assert(planes::at(data, row, y, 4 * x + 2) == number_byte(numbers, w, short, y, 4 * x + 2));
        assert(planes::at(data, row, y, 4 * x + 3) == number_byte(numbers, w, short, y, 4 * x + 3));
    }
}

} // verus!
