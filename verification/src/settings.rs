//! The settings of an imposter as one line of text: fields parted by single
//! spaces, numbers in decimal.

use vstd::prelude::*;
use vstd::string::*;

verus! {

/// The byte that parts fields.
pub const SPACE: u8 = 32;

/// The fields of a line.
pub open spec fn split(line: Seq<u8>) -> Seq<Seq<u8>>
    decreases line.len(),
{
    if line.len() == 0 {
        seq![Seq::empty()]
    } else {
        let before = split(line.drop_last());
        if line.last() == SPACE {
            before.push(Seq::empty())
        } else {
            before.update(before.len() - 1, before.last().push(line.last()))
        }
    }
}

/// The line with these fields.
pub open spec fn join(fields: Seq<Seq<u8>>) -> Seq<u8>
    decreases fields.len(),
{
    if fields.len() == 0 {
        Seq::empty()
    } else if fields.len() == 1 {
        fields[0]
    } else {
        join(fields.drop_last()).push(SPACE) + fields.last()
    }
}

/// There is no space in the field.
pub open spec fn unspaced(field: Seq<u8>) -> bool {
    forall|i: int| 0 <= i < field.len() ==> #[trigger] field[i] != SPACE
}

proof fn lemma_split_some(line: Seq<u8>)
    ensures
        split(line).len() > 0,
    decreases line.len(),
{
    if line.len() > 0 {
        lemma_split_some(line.drop_last());
    }
}

proof fn lemma_split_append(line: Seq<u8>, field: Seq<u8>)
    requires
        unspaced(field),
    ensures
        split(line + field) == split(line).update(
            split(line).len() - 1,
            split(line).last() + field,
        ),
    decreases field.len(),
{
    lemma_split_some(line);
    let all = line + field;
    if field.len() == 0 {
        assert(all =~= line);
        assert(split(line).last() + field =~= split(line).last());
        assert(split(line).update(split(line).len() - 1, split(line).last()) =~= split(line));
    } else {
        let shorter = field.drop_last();
        lemma_split_append(line, shorter);
        assert(all.drop_last() =~= line + shorter);
        assert(all.last() == field.last());
        assert((split(line).last() + shorter).push(field.last()) =~= split(line).last() + field);
        assert(split(all) =~= split(line).update(
            split(line).len() - 1,
            split(line).last() + field,
        ));
    }
}

/// Splitting a joined line gives the fields back, where none holds a space.
pub proof fn law_split_undoes_join(fields: Seq<Seq<u8>>)
    requires
        fields.len() > 0,
        forall|i: int| 0 <= i < fields.len() ==> unspaced(#[trigger] fields[i]),
    ensures
        split(join(fields)) == fields,
    decreases fields.len(),
{
    let last = fields.last();
    if fields.len() == 1 {
        lemma_split_append(Seq::empty(), last);
        assert(Seq::<u8>::empty() + last =~= last);
        assert(split(last) =~= fields);
    } else {
        let before = fields.drop_last();
        law_split_undoes_join(before);
        let line = join(before).push(SPACE);
        assert(line.drop_last() =~= join(before));
        assert(split(line) == before.push(Seq::empty()));
        lemma_split_append(line, last);
        assert(Seq::<u8>::empty() + last =~= last);
        assert(split(line + last) =~= fields);
    }
}

/// The value of decimal digits.
pub open spec fn value(digits: Seq<u8>) -> nat
    decreases digits.len(),
{
    if digits.len() == 0 {
        0
    } else {
        value(digits.drop_last()) * 10 + (digits.last() - 48) as nat
    }
}

/// Every byte is a decimal digit.
pub open spec fn all_digits(digits: Seq<u8>) -> bool {
    forall|i: int| 0 <= i < digits.len() ==> 48 <= #[trigger] digits[i] <= 57
}

/// A field without a plus sign in front.
pub open spec fn unsigned(field: Seq<u8>) -> Seq<u8> {
    if field.len() > 0 && field[0] == 43 {
        field.skip(1)
    } else {
        field
    }
}

/// The number that a field holds: digits, perhaps after a plus sign, of a value
/// that fits.
pub open spec fn number(field: Seq<u8>) -> Option<u32> {
    let digits = unsigned(field);
    if digits.len() > 0 && all_digits(digits) && value(digits) <= u32::MAX {
        Some(value(digits) as u32)
    } else {
        None
    }
}

/// A number in decimal.
pub open spec fn decimal(n: nat) -> Seq<u8>
    decreases n,
{
    if n < 10 {
        seq![(48 + n) as u8]
    } else {
        decimal(n / 10).push((48 + n % 10) as u8)
    }
}

proof fn lemma_decimal(n: nat)
    ensures
        decimal(n).len() > 0,
        all_digits(decimal(n)),
        value(decimal(n)) == n,
    decreases n,
{
    let d = decimal(n);
    if n >= 10 {
        lemma_decimal(n / 10);
        assert(d.drop_last() =~= decimal(n / 10));
    } else {
        assert(d.drop_last() =~= Seq::empty());
        assert(value(d.drop_last()) == 0);
    }
}

/// A number in decimal is read back, and holds no space.
pub proof fn law_decimal_comes_back(n: u32)
    ensures
        number(decimal(n as nat)) == Some(n),
        unspaced(decimal(n as nat)),
{
    lemma_decimal(n as nat);
    assert(decimal(n as nat)[0] != 43);
}

proof fn lemma_value_grows(digits: Seq<u8>, n: int)
    requires
        0 <= n <= digits.len(),
        all_digits(digits),
    ensures
        value(digits.take(n)) <= value(digits),
    decreases digits.len() - n,
{
    if n < digits.len() {
        lemma_value_grows(digits, n + 1);
        assert(digits.take(n + 1).drop_last() =~= digits.take(n));
    } else {
        assert(digits.take(n) =~= digits);
    }
}

/// Reads a number.
pub fn parse_number(field: &Vec<u8>) -> (n: Option<u32>)
    ensures
        n == number(field@),
{
    let start: usize = if field.len() > 0 && field[0] == 43 {
        1
    } else {
        0
    };
    let ghost digits = unsigned(field@);
    assert(digits =~= field@.skip(start as int));
    if field.len() == start {
        return None;
    }
    let mut total: u64 = 0;
    let mut i: usize = start;
    assert(digits.take(0) =~= Seq::empty());
    while i < field.len()
        invariant
            start <= i <= field@.len(),
            digits == unsigned(field@),
            digits == field@.skip(start as int),
            total == value(digits.take(i - start)),
            total <= u32::MAX,
            forall|j: int| 0 <= j < i - start ==> 48 <= #[trigger] digits[j] <= 57,
        decreases field@.len() - i,
    {
        let b: u8 = field[i];
        assert(digits[i - start] == b);
        if b < 48 || b > 57 {
            assert(!all_digits(digits));
            return None;
        }
        proof {
            let longer = digits.take(i - start + 1);
            assert(longer.drop_last() =~= digits.take(i - start));
            assert(longer.last() == b);
        }
        total = total * 10 + (b - 48) as u64;
        if total > u32::MAX as u64 {
            proof {
                if all_digits(digits) {
                    lemma_value_grows(digits, i - start + 1);
                }
            }
            return None;
        }
        i = i + 1;
    }
    assert(digits.take(i - start) =~= digits);
    Some(total as u32)
}

/// Appends a number in decimal.
pub fn push_number(line: &mut Vec<u8>, n: u32)
    ensures
        final(line)@ == old(line)@ + decimal(n as nat),
    decreases n,
{
    if n >= 10 {
        push_number(line, n / 10);
    }
    line.push(48 + (n % 10) as u8);
    assert(line@ =~= old(line)@ + decimal(n as nat));
}

/// The fields as sequences.
pub open spec fn views(fields: Seq<Vec<u8>>) -> Seq<Seq<u8>> {
    Seq::new(fields.len(), |i: int| fields[i]@)
}

/// Splits a line into its fields.
pub fn split_fields(line: &Vec<u8>) -> (fields: Vec<Vec<u8>>)
    ensures
        views(fields@) == split(line@),
        fields@.len() > 0,
{
    let mut done: Vec<Vec<u8>> = Vec::new();
    let mut field: Vec<u8> = Vec::new();
    let mut i: usize = 0;
    assert(line@.take(0) =~= Seq::empty());
    assert(views(done@).push(field@) =~= split(line@.take(0)));
    while i < line.len()
        invariant
            i <= line@.len(),
            views(done@).push(field@) == split(line@.take(i as int)),
        decreases line@.len() - i,
    {
        let ghost before = views(done@).push(field@);
        let ghost part = field@;
        let ghost parts = views(done@);
        let b: u8 = line[i];
        proof {
            assert(line@.take(i + 1).drop_last() =~= line@.take(i as int));
            assert(line@.take(i + 1).last() == b);
            assert(before.last() == part);
        }
        if b == SPACE {
            let mut fresh: Vec<u8> = Vec::new();
            std::mem::swap(&mut fresh, &mut field);
            done.push(fresh);
            proof {
                assert(views(done@) =~= parts.push(part));
                assert(views(done@).push(field@) =~= split(line@.take(i + 1)));
            }
        } else {
            field.push(b);
            proof {
                assert(views(done@).push(field@) =~= before.update(before.len() - 1, part.push(b)));
            }
        }
        i = i + 1;
    }
    let ghost parts = views(done@);
    let ghost part = field@;
    done.push(field);
    proof {
        assert(line@.take(i as int) =~= line@);
        assert(views(done@) =~= parts.push(part));
    }
    done
}

/// What a line says of a file in the second format.
pub struct V2Settings {
    /// How the indices are laid out.
    pub variant: Vec<u8>,
    /// The number of palette entries.
    pub palette_count: u32,
    /// The columns of the palette.
    pub palette_x: u32,
    /// The rows of the palette.
    pub palette_y: u32,
}

/// What a line says.
pub struct Settings {
    /// The tiles along each side of the grid.
    pub grid_size: u32,
    /// The scale, as it is written.
    pub scale: Vec<u8>,
    /// The name of the grid mode.
    pub mode: Vec<u8>,
    /// The size of a tile before trimming.
    pub base_tile_size: u32,
    /// The first column and row of a tile that are kept.
    pub offset: (u32, u32),
    /// The columns and rows of a tile that are kept.
    pub size: (u32, u32),
    /// There where the file is in the second format.
    pub v2: Option<V2Settings>,
}

/// Why a line cannot be read.
#[derive(Clone, Copy, PartialEq, Eq, Structural, Debug)]
pub enum SettingsError {
    /// It is not UTF-8.
    NotText,
    /// It has fewer than eight fields.
    TooFewFields,
    /// A field that should be a number is none.
    BadNumber,
    /// A field of the second format is missing.
    MissingV2Field,
}

/// `V2Settings` with sequences for vectors.
#[verifier::ext_equal]
pub struct V2SettingsView {
    pub variant: Seq<u8>,
    pub palette_count: u32,
    pub palette_x: u32,
    pub palette_y: u32,
}

/// `Settings` with sequences for vectors.
#[verifier::ext_equal]
pub struct SettingsView {
    pub grid_size: u32,
    pub scale: Seq<u8>,
    pub mode: Seq<u8>,
    pub base_tile_size: u32,
    pub offset: (u32, u32),
    pub size: (u32, u32),
    pub v2: Option<V2SettingsView>,
}

impl View for V2Settings {
    type V = V2SettingsView;

    open spec fn view(&self) -> V2SettingsView {
        V2SettingsView {
            variant: self.variant@,
            palette_count: self.palette_count,
            palette_x: self.palette_x,
            palette_y: self.palette_y,
        }
    }
}

impl View for Settings {
    type V = SettingsView;

    open spec fn view(&self) -> SettingsView {
        SettingsView {
            grid_size: self.grid_size,
            scale: self.scale@,
            mode: self.mode@,
            base_tile_size: self.base_tile_size,
            offset: self.offset,
            size: self.size,
            v2: match self.v2 {
                Some(v2) => Some(v2@),
                None => None,
            },
        }
    }
}

/// What the fields from the tenth on say of a file in the second format.
pub open spec fn v2_fields(fields: Seq<Seq<u8>>) -> Result<V2SettingsView, SettingsError> {
    if fields.len() < 11 {
        Err(SettingsError::MissingV2Field)
    } else if number(fields[10]) is None {
        Err(SettingsError::BadNumber)
    } else if fields.len() < 12 {
        Err(SettingsError::MissingV2Field)
    } else if number(fields[11]) is None {
        Err(SettingsError::BadNumber)
    } else if fields.len() < 13 {
        Err(SettingsError::MissingV2Field)
    } else if number(fields[12]) is None {
        Err(SettingsError::BadNumber)
    } else {
        Ok(
            V2SettingsView {
                variant: fields[9],
                palette_count: number(fields[10])->0,
                palette_x: number(fields[11])->0,
                palette_y: number(fields[12])->0,
            },
        )
    }
}

/// The first eight fields hold numbers where they should.
pub open spec fn numbers_fit(fields: Seq<Seq<u8>>) -> bool {
    &&& number(fields[0]) is Some
    &&& number(fields[3]) is Some
    &&& number(fields[4]) is Some
    &&& number(fields[5]) is Some
    &&& number(fields[6]) is Some
    &&& number(fields[7]) is Some
}

/// What a line says, or why it cannot be read.
pub open spec fn parsed(line: Seq<u8>) -> Result<SettingsView, SettingsError> {
    let fields = split(line);
    let marked = fields.len() > 8 && fields[8] == "v2".spec_bytes();
    if !vstd::utf8::valid_utf8(line) {
        Err(SettingsError::NotText)
    } else if fields.len() < 8 {
        Err(SettingsError::TooFewFields)
    } else if !numbers_fit(fields) {
        Err(SettingsError::BadNumber)
    } else if marked && v2_fields(fields) is Err {
        Err(v2_fields(fields)->Err_0)
    } else {
        Ok(
            SettingsView {
                grid_size: number(fields[0])->0,
                scale: fields[1],
                mode: fields[2],
                base_tile_size: number(fields[3])->0,
                offset: (number(fields[4])->0, number(fields[5])->0),
                size: (number(fields[6])->0, number(fields[7])->0),
                v2: if marked {
                    Some(v2_fields(fields)->Ok_0)
                } else {
                    None
                },
            },
        )
    }
}

/// Whether the bytes are UTF-8, by `std::str::from_utf8`, which succeeds on
/// valid UTF-8 and on nothing else.
#[verifier::external_body]
fn is_text(bytes: &[u8]) -> (valid: bool)
    ensures
        valid == vstd::utf8::valid_utf8(bytes@),
{
    std::str::from_utf8(bytes).is_ok()
}

/// Whether two byte strings are equal.
pub fn same_bytes(a: &[u8], b: &[u8]) -> (same: bool)
    ensures
        same == (a@ == b@),
{
    if a.len() != b.len() {
        return false;
    }
    let mut i: usize = 0;
    while i < a.len()
        invariant
            i <= a@.len(),
            a@.len() == b@.len(),
            forall|j: int| 0 <= j < i ==> #[trigger] a@[j] == b@[j],
        decreases a@.len() - i,
    {
        if a[i] != b[i] {
            assert(a@[i as int] != b@[i as int]);
            return false;
        }
        i = i + 1;
    }
    assert(a@ =~= b@);
    true
}

fn copied(field: &Vec<u8>) -> (copy: Vec<u8>)
    ensures
        copy@ == field@,
{
    vstd::slice::slice_to_vec(field.as_slice())
}

fn parse_v2(fields: &Vec<Vec<u8>>) -> (r: Result<V2Settings, SettingsError>)
    ensures
        r is Ok <==> v2_fields(views(fields@)) is Ok,
        r matches Ok(v2) ==> v2_fields(views(fields@)) == Ok::<_, SettingsError>(v2@),
        r matches Err(e) ==> v2_fields(views(fields@)) == Err::<V2SettingsView, _>(e),
{
    let ghost fs = views(fields@);
    if fields.len() < 11 {
        return Err(SettingsError::MissingV2Field);
    }
    let variant: Vec<u8> = copied(&fields[9]);
    assert(fs[9] == fields@[9]@ && fs[10] == fields@[10]@);
    let palette_count: u32 = match parse_number(&fields[10]) {
        Some(n) => n,
        None => return Err(SettingsError::BadNumber),
    };
    if fields.len() < 12 {
        return Err(SettingsError::MissingV2Field);
    }
    assert(fs[11] == fields@[11]@);
    let palette_x: u32 = match parse_number(&fields[11]) {
        Some(n) => n,
        None => return Err(SettingsError::BadNumber),
    };
    if fields.len() < 13 {
        return Err(SettingsError::MissingV2Field);
    }
    assert(fs[12] == fields@[12]@);
    let palette_y: u32 = match parse_number(&fields[12]) {
        Some(n) => n,
        None => return Err(SettingsError::BadNumber),
    };
    Ok(V2Settings { variant, palette_count, palette_x, palette_y })
}

/// Reads a line of settings.
pub fn parse_settings(line: &Vec<u8>) -> (r: Result<Settings, SettingsError>)
    ensures
        r matches Ok(settings) ==> parsed(line@) == Ok::<_, SettingsError>(settings@),
        r matches Err(e) ==> parsed(line@) == Err::<SettingsView, _>(e),
{
    if !is_text(line.as_slice()) {
        return Err(SettingsError::NotText);
    }
    let fields: Vec<Vec<u8>> = split_fields(line);
    let ghost fs = views(fields@);
    if fields.len() < 8 {
        return Err(SettingsError::TooFewFields);
    }
    proof {
        assert forall|i: int| 0 <= i < 8 implies #[trigger] fs[i] == fields@[i]@ by {}
    }
    match (
        parse_number(&fields[0]),
        parse_number(&fields[3]),
        parse_number(&fields[4]),
        parse_number(&fields[5]),
        parse_number(&fields[6]),
        parse_number(&fields[7]),
    ) {
        (
            Some(grid_size),
            Some(base_tile_size),
            Some(offset_x),
            Some(offset_y),
            Some(size_x),
            Some(size_y),
        ) => {
            let marked: bool = fields.len() > 8 && same_bytes(
                fields[8].as_slice(),
                "v2".as_bytes(),
            );
            assert(fields@.len() > 8 ==> fs[8] == fields@[8]@);
            let v2: Option<V2Settings> = if marked {
                match parse_v2(&fields) {
                    Ok(v2) => Some(v2),
                    Err(e) => {
                        return Err(e);
                    },
                }
            } else {
                None
            };
            Ok(
                Settings {
                    grid_size,
                    scale: copied(&fields[1]),
                    mode: copied(&fields[2]),
                    base_tile_size,
                    offset: (offset_x, offset_y),
                    size: (size_x, size_y),
                    v2,
                },
            )
        },
        _ => Err(SettingsError::BadNumber),
    }
}

/// The fields that say these settings.
pub open spec fn fields_of(s: SettingsView) -> Seq<Seq<u8>> {
    let first = seq![
        decimal(s.grid_size as nat),
        s.scale,
        s.mode,
        decimal(s.base_tile_size as nat),
        decimal(s.offset.0 as nat),
        decimal(s.offset.1 as nat),
        decimal(s.size.0 as nat),
        decimal(s.size.1 as nat),
    ];
    match s.v2 {
        None => first,
        Some(v2) => first + seq![
            "v2".spec_bytes(),
            v2.variant,
            decimal(v2.palette_count as nat),
            decimal(v2.palette_x as nat),
            decimal(v2.palette_y as nat),
        ],
    }
}

/// Every byte is below 128.
pub open spec fn is_ascii_bytes(bytes: Seq<u8>) -> bool {
    forall|i: int| 0 <= i < bytes.len() ==> #[trigger] bytes[i] < 128
}

fn push_field(line: &mut Vec<u8>, field: &Vec<u8>, Ghost(before): Ghost<Seq<Seq<u8>>>)
    requires
        before.len() > 0,
        old(line)@ == join(before),
    ensures
        final(line)@ == join(before.push(field@)),
{
    line.push(SPACE);
    line.extend_from_slice(field.as_slice());
    assert(before.push(field@).drop_last() =~= before);
    assert(line@ =~= join(before).push(SPACE) + field@);
}

fn push_number_field(line: &mut Vec<u8>, n: u32, Ghost(before): Ghost<Seq<Seq<u8>>>)
    requires
        before.len() > 0,
        old(line)@ == join(before),
    ensures
        final(line)@ == join(before.push(decimal(n as nat))),
{
    line.push(SPACE);
    push_number(line, n);
    assert(before.push(decimal(n as nat)).drop_last() =~= before);
    assert(line@ =~= join(before).push(SPACE) + decimal(n as nat));
}

/// Writes settings as a line.
pub fn format_settings(s: &Settings) -> (line: Vec<u8>)
    ensures
        line@ == join(fields_of(s@)),
{
    let mut line: Vec<u8> = Vec::new();
    push_number(&mut line, s.grid_size);
    let ghost f = fields_of(s@);
    assert(line@ =~= join(f.take(1)));
    push_field(&mut line, &s.scale, Ghost(f.take(1)));
    assert(f.take(1).push(s.scale@) =~= f.take(2));
    push_field(&mut line, &s.mode, Ghost(f.take(2)));
    assert(f.take(2).push(s.mode@) =~= f.take(3));
    push_number_field(&mut line, s.base_tile_size, Ghost(f.take(3)));
    assert(f.take(3).push(decimal(s.base_tile_size as nat)) =~= f.take(4));
    push_number_field(&mut line, s.offset.0, Ghost(f.take(4)));
    assert(f.take(4).push(decimal(s.offset.0 as nat)) =~= f.take(5));
    push_number_field(&mut line, s.offset.1, Ghost(f.take(5)));
    assert(f.take(5).push(decimal(s.offset.1 as nat)) =~= f.take(6));
    push_number_field(&mut line, s.size.0, Ghost(f.take(6)));
    assert(f.take(6).push(decimal(s.size.0 as nat)) =~= f.take(7));
    push_number_field(&mut line, s.size.1, Ghost(f.take(7)));
    assert(f.take(7).push(decimal(s.size.1 as nat)) =~= f.take(8));
    match &s.v2 {
        None => {
            assert(f.take(8) =~= f);
        },
        Some(v2) => {
            let marker: Vec<u8> = "v2".as_bytes_vec();
            push_field(&mut line, &marker, Ghost(f.take(8)));
            assert(f.take(8).push(marker@) =~= f.take(9));
            push_field(&mut line, &v2.variant, Ghost(f.take(9)));
            assert(f.take(9).push(v2.variant@) =~= f.take(10));
            push_number_field(&mut line, v2.palette_count, Ghost(f.take(10)));
            assert(f.take(10).push(decimal(v2.palette_count as nat)) =~= f.take(11));
            push_number_field(&mut line, v2.palette_x, Ghost(f.take(11)));
            assert(f.take(11).push(decimal(v2.palette_x as nat)) =~= f.take(12));
            push_number_field(&mut line, v2.palette_y, Ghost(f.take(12)));
            assert(f.take(12).push(decimal(v2.palette_y as nat)) =~= f.take(13));
            assert(f.take(13) =~= f);
        },
    }
    line
}

proof fn lemma_ascii_is_text(bytes: Seq<u8>)
    requires
        is_ascii_bytes(bytes),
    ensures
        vstd::utf8::valid_utf8(bytes),
    decreases bytes.len(),
{
    if bytes.len() > 0 {
        let b = bytes[0];
        assert(b & 0x80u8 == 0 && b & 0x7fu8 == b) by (bit_vector)
            requires
                b < 128,
        ;
        let rest = vstd::utf8::pop_first_scalar(bytes);
        assert(rest =~= bytes.skip(1));
        lemma_ascii_is_text(rest);
    }
}

proof fn lemma_join_ascii(fields: Seq<Seq<u8>>)
    requires
        forall|i: int| 0 <= i < fields.len() ==> is_ascii_bytes(#[trigger] fields[i]),
    ensures
        is_ascii_bytes(join(fields)),
    decreases fields.len(),
{
    if fields.len() > 1 {
        let before = fields.drop_last();
        assert forall|i: int| 0 <= i < before.len() implies is_ascii_bytes(#[trigger] before[i]) by {
            assert(before[i] == fields[i]);
        }
        lemma_join_ascii(before);
        assert(is_ascii_bytes(fields[fields.len() - 1]));
    }
}

/// A field of text that can stand in a line.
pub open spec fn plain(field: Seq<u8>) -> bool {
    unspaced(field) && is_ascii_bytes(field)
}

proof fn lemma_marker_plain()
    ensures
        plain("v2".spec_bytes()),
{
    reveal_strlit("v2");
    is_ascii_spec_bytes("v2");
}

/// A line says the settings that it was written from.
pub proof fn law_settings_come_back(s: SettingsView)
    requires
        plain(s.scale),
        plain(s.mode),
        s.v2 matches Some(v2) ==> plain(v2.variant),
    ensures
        parsed(join(fields_of(s))) == Ok::<_, SettingsError>(s),
{
    let fields = fields_of(s);
    lemma_marker_plain();
    assert forall|i: int| 0 <= i < fields.len() implies plain(#[trigger] fields[i]) by {
        lemma_number_plain(s.grid_size);
        lemma_number_plain(s.base_tile_size);
        lemma_number_plain(s.offset.0);
        lemma_number_plain(s.offset.1);
        lemma_number_plain(s.size.0);
        lemma_number_plain(s.size.1);
        match s.v2 {
            Some(v2) => {
                lemma_number_plain(v2.palette_count);
                lemma_number_plain(v2.palette_x);
                lemma_number_plain(v2.palette_y);
            },
            None => {},
        }
    }
    law_split_undoes_join(fields);
    lemma_join_ascii(fields);
    lemma_ascii_is_text(join(fields));
    law_decimal_comes_back(s.grid_size);
    law_decimal_comes_back(s.base_tile_size);
    law_decimal_comes_back(s.offset.0);
    law_decimal_comes_back(s.offset.1);
    law_decimal_comes_back(s.size.0);
    law_decimal_comes_back(s.size.1);
    match s.v2 {
        Some(v2) => {
            law_decimal_comes_back(v2.palette_count);
            law_decimal_comes_back(v2.palette_x);
            law_decimal_comes_back(v2.palette_y);
        },
        None => {},
    }
}

proof fn lemma_number_plain(n: u32)
    ensures
        plain(decimal(n as nat)),
{
    lemma_decimal(n as nat);
    law_decimal_comes_back(n);
}

/// The fields of a line say these settings, in this order: tiles to a side, scale, mode,
/// texels to a side of a tile, first column and row of a tile that are kept, columns and
/// rows that are kept; and where the ninth field is `v2`, layout, number of palette
/// entries, and columns and rows of the palette.
pub open spec fn say(fields: Seq<Seq<u8>>, s: SettingsView) -> bool {
    &&& fields.len() >= 8
    &&& number(fields[0]) == Some(s.grid_size)
    &&& fields[1] == s.scale
    &&& fields[2] == s.mode
    &&& number(fields[3]) == Some(s.base_tile_size)
    &&& number(fields[4]) == Some(s.offset.0)
    &&& number(fields[5]) == Some(s.offset.1)
    &&& number(fields[6]) == Some(s.size.0)
    &&& number(fields[7]) == Some(s.size.1)
    &&& s.v2 is Some <==> fields.len() > 8 && fields[8] == "v2".spec_bytes()
    &&& s.v2 matches Some(v2) ==> {
        &&& fields.len() >= 13
        &&& fields[9] == v2.variant
        &&& number(fields[10]) == Some(v2.palette_count)
        &&& number(fields[11]) == Some(v2.palette_x)
        &&& number(fields[12]) == Some(v2.palette_y)
    }
}

/// What is read from a line is what its fields say, and whatever follows them is left
/// aside; and every line of text whose fields say some settings is read.
pub proof fn law_lines_are_read_field_by_field(line: Seq<u8>, s: SettingsView)
    ensures
        parsed(line) == Ok::<_, SettingsError>(s) <==> vstd::utf8::valid_utf8(line) && say(
            split(line),
            s,
        ),
{
    if vstd::utf8::valid_utf8(line) && say(split(line), s) {
        let fields = split(line);
        assert(numbers_fit(fields));
        if s.v2 is Some {
            assert(v2_fields(fields) == Ok::<_, SettingsError>(s.v2->0));
        }
        assert(parsed(line)->Ok_0 == s);
    }
}

/// The line that is written for settings has a field for each part of them, in order,
/// and no more.
pub proof fn law_lines_are_written_field_by_field(s: Settings, line: Vec<u8>)
    requires
        call_ensures(format_settings, (&s,), line),
        plain(s.scale@),
        plain(s.mode@),
        s.v2 matches Some(v2) ==> plain(v2.variant@),
    ensures
        say(split(line@), s@),
        split(line@).len() == if s.v2 is Some {
            13int
        } else {
            8
        },
{
    law_settings_come_back(s@);
    law_lines_are_read_field_by_field(line@, s@);
    let fields = fields_of(s@);
    lemma_marker_plain();
    lemma_fields_plain(s@);
    law_split_undoes_join(fields);
}

proof fn lemma_fields_plain(s: SettingsView)
    requires
        plain(s.scale),
        plain(s.mode),
        s.v2 matches Some(v2) ==> plain(v2.variant),
    ensures
        forall|i: int| 0 <= i < fields_of(s).len() ==> plain(#[trigger] fields_of(s)[i]),
{
    let fields = fields_of(s);
    lemma_marker_plain();
    lemma_number_plain(s.grid_size);
    lemma_number_plain(s.base_tile_size);
    lemma_number_plain(s.offset.0);
    lemma_number_plain(s.offset.1);
    lemma_number_plain(s.size.0);
    lemma_number_plain(s.size.1);
    if s.v2 is Some {
        let v2 = s.v2->0;
        lemma_number_plain(v2.palette_count);
        lemma_number_plain(v2.palette_x);
        lemma_number_plain(v2.palette_y);
    }
    assert forall|i: int| 0 <= i < fields.len() implies plain(#[trigger] fields[i]) by {}
}

/// A number may have a plus sign in front, and zeros; a minus sign, any other byte that
/// is no digit, and the lack of digits make it none.
pub proof fn law_numbers_are_read(n: u32, field: Seq<u8>)
    ensures
        number(decimal(n as nat)) == Some(n),
        number(seq![43u8] + decimal(n as nat)) == Some(n),
        number(seq![48u8] + decimal(n as nat)) == Some(n),
        number(seq![45u8] + field) is None,
        number(Seq::empty()) is None,
        number(field) is Some ==> forall|i: int|
            0 < i < field.len() ==> 48 <= #[trigger] field[i] <= 57,
{
    let d = decimal(n as nat);
    lemma_decimal(n as nat);
    law_decimal_comes_back(n);
    assert((seq![43u8] + d).skip(1) =~= d);
    lemma_leading_zero(d);
    let z = seq![48u8] + d;
    assert forall|i: int| 0 <= i < z.len() implies 48 <= #[trigger] z[i] <= 57 by {
        assert(i > 0 ==> z[i] == d[i - 1]);
    }
    let m = seq![45u8] + field;
    assert(m[0] == 45);
    if number(field) is Some {
        let digits = unsigned(field);
        assert forall|i: int| 0 < i < field.len() implies 48 <= #[trigger] field[i] <= 57 by {
            if field[0] == 43 {
                assert(digits[i - 1] == field[i]);
            }
        }
    }
}

proof fn lemma_leading_zero(digits: Seq<u8>)
    ensures
        value(seq![48u8] + digits) == value(digits),
    decreases digits.len(),
{
    let z = seq![48u8] + digits;
    if digits.len() == 0 {
        assert(z.drop_last() =~= Seq::empty());
        assert(value(z.drop_last()) == 0);
    } else {
        lemma_leading_zero(digits.drop_last());
        assert(z.drop_last() =~= seq![48u8] + digits.drop_last());
        assert(z.last() == digits.last());
    }
}

/// A line is refused because it is no text, because it has fewer than eight fields, or,
/// where the ninth is `v2`, fewer than thirteen with numbers in them as far as they go; or
/// because a field that should hold a number does not.
pub proof fn law_lines_are_refused_for_a_reason(line: Seq<u8>)
    ensures
        ({
            let f = split(line);
            let marked = f.len() > 8 && f[8] == "v2".spec_bytes();
            let outcome = parsed(line);
            &&& outcome == Err::<SettingsView, _>(SettingsError::NotText)
                <==> !vstd::utf8::valid_utf8(line)
            &&& outcome == Err::<SettingsView, _>(SettingsError::TooFewFields)
                <==> vstd::utf8::valid_utf8(line) && f.len() < 8
            &&& outcome == Err::<SettingsView, _>(SettingsError::MissingV2Field) ==> marked
                && f.len() < 13
            &&& outcome == Err::<SettingsView, _>(SettingsError::BadNumber) ==> exists|i: int|
                #![trigger number(f[i])]
                0 <= i < f.len() && i != 1 && i != 2 && i != 8 && i != 9 && number(f[i]) is None
            &&& marked && f.len() < 13 ==> outcome is Err
        }),
{
    let f = split(line);
    if parsed(line) == Err::<SettingsView, _>(SettingsError::BadNumber) {
        let i: int = if number(f[0]) is None {
            0
        } else if number(f[3]) is None {
            3
        } else if number(f[4]) is None {
            4
        } else if number(f[5]) is None {
            5
        } else if number(f[6]) is None {
            6
        } else if number(f[7]) is None {
            7
        } else if number(f[10]) is None {
            10
        } else if number(f[11]) is None {
            11
        } else {
            12
        };
        assert(number(f[i]) is None);
    }
}

} // verus!
