//! The eight bytes that the bake writes per pixel, and the fields packed in them.

use vstd::prelude::*;

verus! {

/// The little-endian word whose lowest byte is `bytes[at]`.
pub open spec fn word(bytes: Seq<u8>, at: int) -> u32 {
    (bytes[at] + 0x100 * bytes[at + 1] + 0x1_0000 * bytes[at + 2] + 0x100_0000 * bytes[at
        + 3]) as u32
}

/// Colour, alpha, roughness, metallic and flags.
pub open spec fn lower(pack: [u8; 8]) -> u32 {
    word(pack@, 0)
}

/// Normal and depth.
pub open spec fn upper(pack: [u8; 8]) -> u32 {
    word(pack@, 4)
}

/// A pack as one integer, which no other pack has.
pub open spec fn key(pack: [u8; 8]) -> u64 {
    (lower(pack) + 0x1_0000_0000 * upper(pack)) as u64
}

/// The word with colour, alpha, roughness, metallic and flags of the pack with key `k`.
pub open spec fn key_lower(k: u64) -> u32 {
    (k % 0x1_0000_0000) as u32
}

/// The word with normal and depth of the pack with key `k`.
pub open spec fn key_upper(k: u64) -> u32 {
    (k / 0x1_0000_0000) as u32
}

/// Bits 15 to 19 of the lower word.
pub open spec fn alpha_level(lo: u32) -> u32 {
    (lo / 0x8000) % 32
}

/// Bits 28 to 31 of the lower word.
pub open spec fn flag_bits(lo: u32) -> u32 {
    lo / 0x1000_0000
}

/// Bits 24 to 31 of the upper word.
pub open spec fn depth_byte(hi: u32) -> u32 {
    hi / 0x100_0000
}

/// A pack that draws nothing.
pub open spec fn transparent(pack: [u8; 8]) -> bool {
    alpha_level(lower(pack)) == 0
}

/// The bytes of `pack` hold both words of its key.
pub proof fn lemma_key_words(pack: [u8; 8])
    ensures
        key_lower(key(pack)) == lower(pack),
        key_upper(key(pack)) == upper(pack),
        key(pack) == lower(pack) + 0x1_0000_0000 * upper(pack),
{
    let lo = lower(pack) as int;
    let hi = upper(pack) as int;
    assert((lo + 0x1_0000_0000 * hi) % 0x1_0000_0000 == lo) by (nonlinear_arith)
        requires
            0 <= lo < 0x1_0000_0000,
    ;
    assert((lo + 0x1_0000_0000 * hi) / 0x1_0000_0000 == hi) by (nonlinear_arith)
        requires
            0 <= lo < 0x1_0000_0000,
    ;
}

/// The bytes that a word is made of.
pub proof fn lemma_digits(a: u8, b: u8, c: u8, d: u8, n: int)
    requires
        n == a + 0x100 * b + 0x1_0000 * c + 0x100_0000 * d,
    ensures
        n % 0x100 == a,
        (n / 0x100) % 0x100 == b,
        (n / 0x1_0000) % 0x100 == c,
        n / 0x100_0000 == d,
{
    let q = c + 0x100 * d;
    let p = b + 0x100 * q;
    vstd::arithmetic::div_mod::lemma_fundamental_div_mod_converse(n, 0x100, p, a as int);
    vstd::arithmetic::div_mod::lemma_fundamental_div_mod_converse(p, 0x100, q, b as int);
    vstd::arithmetic::div_mod::lemma_fundamental_div_mod_converse(q, 0x100, d as int, c as int);
    vstd::arithmetic::div_mod::lemma_fundamental_div_mod_converse(n, 0x1_0000, q, a + 0x100 * b);
    vstd::arithmetic::div_mod::lemma_fundamental_div_mod_converse(
        n,
        0x100_0000,
        d as int,
        a + 0x100 * b + 0x1_0000 * c,
    );
}

proof fn lemma_word_bytes(bytes: Seq<u8>, at: int)
    ensures
        bytes[at] == word(bytes, at) % 0x100,
        bytes[at + 1] == (word(bytes, at) / 0x100) % 0x100,
        bytes[at + 2] == (word(bytes, at) / 0x1_0000) % 0x100,
        bytes[at + 3] == word(bytes, at) / 0x100_0000,
{
    lemma_digits(
        bytes[at],
        bytes[at + 1],
        bytes[at + 2],
        bytes[at + 3],
        word(bytes, at) as int,
    );
}

/// Packs with the same key have the same bytes, so that a key stands for its
/// pack.
pub proof fn law_key_tells_packs_apart(a: [u8; 8], b: [u8; 8])
    requires
        key(a) == key(b),
    ensures
        a@ == b@,
{
    lemma_key_words(a);
    lemma_key_words(b);
    lemma_word_bytes(a@, 0);
    lemma_word_bytes(b@, 0);
    lemma_word_bytes(a@, 4);
    lemma_word_bytes(b@, 4);
    assert(a@ =~= b@);
}

/// The lower word with these levels of colour, alpha, roughness and metallic, each
/// cut to the bits that it has, and with these flags.
pub open spec fn packed_lower(levels: Seq<u32>, flags: u32) -> u32 {
    (levels[0] % 32 + 0x20 * (levels[1] % 32) + 0x400 * (levels[2] % 32) + 0x8000 * (levels[3] % 32)
        + 0x10_0000 * (levels[4] % 16) + 0x100_0000 * (levels[5] % 16) + 0x1000_0000 * (flags
        % 16)) as u32
}

/// The upper word with these levels of normal and depth, each cut to the bits that
/// it has.
pub open spec fn packed_upper(levels: Seq<u32>) -> u32 {
    (levels[6] % 0x1000 + 0x1000 * (levels[7] % 0x1000) + 0x100_0000 * (levels[8] % 0x100)) as u32
}

/// The four bytes of a word, the lowest first.
fn word_bytes(word: u32) -> (bytes: [u8; 4])
    ensures
        word == self::word(bytes@, 0),
{
    let a: u8 = (word % 0x100) as u8;
    let b: u8 = ((word / 0x100) % 0x100) as u8;
    let c: u8 = ((word / 0x1_0000) % 0x100) as u8;
    let d: u8 = (word / 0x100_0000) as u8;
    [a, b, c, d]
}

/// The pack with these levels of red, green, blue, alpha, roughness, metallic,
/// normal x, normal y and depth, and with these flags.
pub fn pack_levels(levels: &[u32; 9], flags: u32) -> (pack: [u8; 8])
    ensures
        lower(pack) == packed_lower(levels@, flags),
        upper(pack) == packed_upper(levels@),
{
    let lo: u32 = levels[0] % 32 + 0x20 * (levels[1] % 32) + 0x400 * (levels[2] % 32) + 0x8000 * (
    levels[3] % 32) + 0x10_0000 * (levels[4] % 16) + 0x100_0000 * (levels[5] % 16) + 0x1000_0000 * (
    flags % 16);
    let hi: u32 = levels[6] % 0x1000 + 0x1000 * (levels[7] % 0x1000) + 0x100_0000 * (levels[8]
        % 0x100);
    let l: [u8; 4] = word_bytes(lo);
    let h: [u8; 4] = word_bytes(hi);
    [l[0], l[1], l[2], l[3], h[0], h[1], h[2], h[3]]
}

/// The word at the front of a pack.
pub fn lower_word(pack: &[u8; 8]) -> (lo: u32)
    ensures
        lo == lower(*pack),
{
    pack[0] as u32 + 0x100 * pack[1] as u32 + 0x1_0000 * pack[2] as u32 + 0x100_0000
        * pack[3] as u32
}

/// The word at the back of a pack.
pub fn upper_word(pack: &[u8; 8]) -> (hi: u32)
    ensures
        hi == upper(*pack),
{
    pack[4] as u32 + 0x100 * pack[5] as u32 + 0x1_0000 * pack[6] as u32 + 0x100_0000
        * pack[7] as u32
}

/// The key of a pack.
pub fn pack_key(pack: &[u8; 8]) -> (k: u64)
    ensures
        k == key(*pack),
{
    lower_word(pack) as u64 + 0x1_0000_0000 * upper_word(pack) as u64
}

/// The bits of `word` from bit `at` on that `mask` lets through.
pub open spec fn field(word: u32, at: u32, mask: u32) -> u32 {
    (word >> at) & mask
}

/// Where the fields of a word are, as quotients and remainders.
pub proof fn lemma_fields(w: u32)
    by (bit_vector)
    ensures
        field(w, 0, 31) == w % 32,
        field(w, 5, 31) == (w / 0x20) % 32,
        field(w, 10, 31) == (w / 0x400) % 32,
        field(w, 15, 31) == (w / 0x8000) % 32,
        field(w, 20, 15) == (w / 0x10_0000) % 16,
        field(w, 24, 15) == (w / 0x100_0000) % 16,
        field(w, 28, 15) == w / 0x1000_0000,
        field(w, 0, 0xfff) == w % 0x1000,
        field(w, 12, 0xfff) == (w / 0x1000) % 0x1000,
        field(w, 24, 0xff) == w / 0x100_0000,
        field(w, 0, 0xff) == w % 0x100,
        field(w, 8, 0xff) == (w / 0x100) % 0x100,
        field(w, 16, 0xff) == (w / 0x1_0000) % 0x100,
{
}

/// The words of a pack hold its bytes, the first four in the one and the last four in
/// the other, and the lowest first.
pub proof fn law_words_hold_the_bytes(pack: [u8; 8], lo: u32, hi: u32)
    requires
        call_ensures(lower_word, (&pack,), lo),
        call_ensures(upper_word, (&pack,), hi),
    ensures
        forall|b: u32|
            b < 4 ==> #[trigger] pack@[b as int] == field(lo, (8 * b) as u32, 0xff),
        forall|b: u32|
            b < 4 ==> #[trigger] pack@[b + 4] == field(hi, (8 * b) as u32, 0xff),
{
    lemma_fields(lo);
    lemma_fields(hi);
    lemma_word_bytes(pack@, 0);
    lemma_word_bytes(pack@, 4);
    assert forall|b: u32| b < 4 implies #[trigger] pack@[b as int] == field(
        lo,
        (8 * b) as u32,
        0xff,
    ) by {
        assert(b == 0 || b == 1 || b == 2 || b == 3);
    }
    assert forall|b: u32| b < 4 implies #[trigger] pack@[b + 4] == field(
        hi,
        (8 * b) as u32,
        0xff,
    ) by {
        assert(b == 0 || b == 1 || b == 2 || b == 3);
    }
}

/// The key of a pack is its two words, one above the other.
pub proof fn law_key_holds_the_words(pack: [u8; 8], lo: u32, hi: u32, k: u64)
    requires
        call_ensures(lower_word, (&pack,), lo),
        call_ensures(upper_word, (&pack,), hi),
        call_ensures(pack_key, (&pack,), k),
    ensures
        k == (hi as u64) << 32 | lo as u64,
{
    lemma_key_words(pack);
    assert((hi as u64) << 32 | lo as u64 == lo + 0x1_0000_0000 * hi) by (bit_vector);
}

/// A pack draws nothing where bits 15 to 19 of its lower word are clear.
pub proof fn law_alpha_decides_what_is_seen(pack: [u8; 8], lo: u32)
    requires
        call_ensures(lower_word, (&pack,), lo),
    ensures
        transparent(pack) <==> field(lo, 15, 31) == 0,
{
    lemma_fields(lo);
}

} // verus!
