//! Packed map identifiers and tile keys.
//!
//! A packed identifier is a 32-bit word holding, from the most significant
//! byte down, the area number, the grid X index, the grid Z index and a
//! reserved byte.

use vstd::prelude::*;
use vstd::string::*;

verus! {

/// Area number of the primary global frame.
pub const AREA_PRIMARY: u8 = 60;

/// Area number of the secondary global frame.
pub const AREA_SECONDARY: u8 = 61;

/// A local coordinate frame: an area number and two grid indices.
#[derive(Clone, Copy, Debug, PartialEq, Eq, Structural)]
pub struct TileKey {
    pub area: u8,
    pub grid_x: u8,
    pub grid_z: u8,
}

/// Whether an area number names one of the two global frames.
pub open spec fn is_global_area(area: u8) -> bool {
    area == AREA_PRIMARY || area == AREA_SECONDARY
}

/// The area number held in a packed identifier: its most significant byte.
pub open spec fn area_of(map_id: u32) -> u8 {
    (map_id as int / 0x100_0000) as u8
}

/// The grid X index held in a packed identifier: its second byte.
pub open spec fn grid_x_of(map_id: u32) -> u8 {
    (map_id as int / 0x1_0000 % 256) as u8
}

/// The grid Z index held in a packed identifier: its third byte.
pub open spec fn grid_z_of(map_id: u32) -> u8 {
    (map_id as int / 0x100 % 256) as u8
}

/// The reserved, least significant byte of a packed identifier.
pub open spec fn reserved_of(map_id: u32) -> u8 {
    (map_id as int % 256) as u8
}

/// The identifier that packs the given four bytes.
pub open spec fn packed(area: u8, grid_x: u8, grid_z: u8, reserved: u8) -> u32 {
    (area as int * 0x100_0000 + grid_x as int * 0x1_0000 + grid_z as int * 0x100
        + reserved as int) as u32
}

/// The tile that a packed identifier names.
pub open spec fn tile_of(map_id: u32) -> TileKey {
    TileKey { area: area_of(map_id), grid_x: grid_x_of(map_id), grid_z: grid_z_of(map_id) }
}

/// The decimal digit character for `d`.
pub open spec fn digit_char(d: int) -> char
    recommends
        0 <= d < 10,
{
    (d + 0x30) as char
}

/// Decimal rendering of a byte, zero-padded to at least two digits.
#[verifier::opaque]
pub open spec fn padded_decimal(n: u8) -> Seq<char> {
    if n < 100 {
        seq![digit_char(n as int / 10), digit_char(n as int % 10)]
    } else {
        seq![digit_char(n as int / 100), digit_char(n as int / 10 % 10), digit_char(n as int % 10)]
    }
}

/// The canonical text of four identifier bytes: `m`, then the bytes in
/// padded decimal, joined by underscores.
pub open spec fn canonical_text(area: u8, grid_x: u8, grid_z: u8, reserved: u8) -> Seq<char> {
    seq!['m'] + padded_decimal(area) + seq!['_'] + padded_decimal(grid_x) + seq!['_']
        + padded_decimal(grid_z) + seq!['_'] + padded_decimal(reserved)
}

/// The canonical text of a packed identifier.
pub open spec fn map_id_text(map_id: u32) -> Seq<char> {
    canonical_text(area_of(map_id), grid_x_of(map_id), grid_z_of(map_id), reserved_of(map_id))
}

/// The four bytes of an identifier as shifts and masks give them, and the
/// identifier as the packing of its bytes.
proof fn lemma_bytes_by_shift(map_id: u32)
    ensures
        area_of(map_id) == ((map_id >> 24) & 0xFF) as u8,
        grid_x_of(map_id) == ((map_id >> 16) & 0xFF) as u8,
        grid_z_of(map_id) == ((map_id >> 8) & 0xFF) as u8,
        reserved_of(map_id) == (map_id & 0xFF) as u8,
        map_id == packed(
            area_of(map_id),
            grid_x_of(map_id),
            grid_z_of(map_id),
            reserved_of(map_id),
        ),
{
    assert(((map_id >> 24) & 0xFF) == map_id / 0x100_0000) by (bit_vector);
    assert(((map_id >> 16) & 0xFF) == (map_id / 0x1_0000) % 256) by (bit_vector);
    assert(((map_id >> 8) & 0xFF) == (map_id / 0x100) % 256) by (bit_vector);
    assert((map_id & 0xFF) == map_id % 256) by (bit_vector);
    assert(map_id / 0x100_0000 < 256) by (bit_vector);
    assert(map_id == (map_id / 0x100_0000) * 0x100_0000 + ((map_id / 0x1_0000) % 256) * 0x1_0000
        + ((map_id / 0x100) % 256) * 0x100 + map_id % 256) by (bit_vector);
}

/// Packing four bytes and reading them back gives the same four bytes.
pub proof fn lemma_pack_then_parse(area: u8, grid_x: u8, grid_z: u8, reserved: u8)
    ensures
        area_of(packed(area, grid_x, grid_z, reserved)) == area,
        grid_x_of(packed(area, grid_x, grid_z, reserved)) == grid_x,
        grid_z_of(packed(area, grid_x, grid_z, reserved)) == grid_z,
        reserved_of(packed(area, grid_x, grid_z, reserved)) == reserved,
{
    let a: int = area as int;
    let x: int = grid_x as int;
    let z: int = grid_z as int;
    let r: int = reserved as int;
    let p: int = a * 0x100_0000 + x * 0x1_0000 + z * 0x100 + r;
    assert(0 <= p <= u32::MAX);
    assert(p / 0x100_0000 == a) by (nonlinear_arith)
        requires
            p == a * 0x100_0000 + (x * 0x1_0000 + z * 0x100 + r),
            0 <= x * 0x1_0000 + z * 0x100 + r < 0x100_0000,
    ;
    assert(p / 0x1_0000 == a * 0x100 + x) by (nonlinear_arith)
        requires
            p == (a * 0x100 + x) * 0x1_0000 + (z * 0x100 + r),
            0 <= z * 0x100 + r < 0x1_0000,
    ;
    assert(p / 0x100 == a * 0x1_0000 + x * 0x100 + z) by (nonlinear_arith)
        requires
            p == (a * 0x1_0000 + x * 0x100 + z) * 0x100 + r,
            0 <= r < 0x100,
    ;
    assert((a * 0x100 + x) % 256 == x) by (nonlinear_arith)
        requires
            0 <= x < 256,
            0 <= a,
    ;
    assert((a * 0x1_0000 + x * 0x100 + z) % 256 == z) by (nonlinear_arith)
        requires
            0 <= z < 256,
            0 <= a,
            0 <= x,
    ;
    assert(p % 256 == r) by (nonlinear_arith)
        requires
            p == (a * 0x1_0000 + x * 0x100 + z) * 0x100 + r,
            0 <= r < 256,
            0 <= a,
            0 <= x,
            0 <= z,
    ;
}

/// Every identifier is the packing of its own four bytes, and its text is
/// the canonical text of those bytes.
pub proof fn lemma_format_of_parse(map_id: u32)
    ensures
        map_id == packed(
            area_of(map_id),
            grid_x_of(map_id),
            grid_z_of(map_id),
            reserved_of(map_id),
        ),
        map_id_text(map_id) == canonical_text(
            area_of(map_id),
            grid_x_of(map_id),
            grid_z_of(map_id),
            reserved_of(map_id),
        ),
        12 <= map_id_text(map_id).len() <= 16,
{
    lemma_bytes_by_shift(map_id);
    reveal(padded_decimal);
    assert(forall|n: u8| 2 <= #[trigger] padded_decimal(n).len() <= 3);
}

/// The character of a decimal digit is that digit's own, and neither the
/// underscore nor the letter that a text begins with.
proof fn lemma_digit_char(d: int)
    requires
        0 <= d < 10,
    ensures
        digit_char(d) as u32 == d + 0x30,
        digit_char(d) != '_',
{
}

/// A byte is known by its padded decimal text.
proof fn lemma_padded_decimal_known(n1: u8, n2: u8)
    requires
        padded_decimal(n1) == padded_decimal(n2),
    ensures
        n1 == n2,
{
    reveal(padded_decimal);
    let d1 = padded_decimal(n1);
    let d2 = padded_decimal(n2);
    assert(d1.len() == if n1 < 100 {
        2nat
    } else {
        3nat
    });
    assert(d2.len() == if n2 < 100 {
        2nat
    } else {
        3nat
    });
    assert((n1 < 100) == (n2 < 100));
    lemma_digit_char(n1 as int % 10);
    lemma_digit_char(n2 as int % 10);
    if n1 < 100 {
        lemma_digit_char(n1 as int / 10);
        lemma_digit_char(n2 as int / 10);
        assert(d1[0] == d2[0] && d1[1] == d2[1]);
    } else {
        lemma_digit_char(n1 as int / 100);
        lemma_digit_char(n2 as int / 100);
        lemma_digit_char(n1 as int / 10 % 10);
        lemma_digit_char(n2 as int / 10 % 10);
        assert(d1[0] == d2[0] && d1[1] == d2[1] && d1[2] == d2[2]);
    }
}

/// A padded decimal text at the front of a longer text is known from the
/// longer text, where what follows is nothing or begins with an
/// underscore: the digits end where the underscore, or the text, does.
proof fn lemma_decimal_prefix(n1: u8, rest1: Seq<char>, n2: u8, rest2: Seq<char>)
    requires
        padded_decimal(n1) + rest1 == padded_decimal(n2) + rest2,
        (rest1.len() == 0 && rest2.len() == 0) || (rest1.len() > 0 && rest2.len() > 0 && rest1[0]
            == '_' && rest2[0] == '_'),
    ensures
        n1 == n2,
        rest1 == rest2,
{
    reveal(padded_decimal);
    let d1 = padded_decimal(n1);
    let d2 = padded_decimal(n2);
    let whole = d1 + rest1;
    assert(whole.len() == d1.len() + rest1.len() && whole.len() == d2.len() + rest2.len());
    if d1.len() < d2.len() {
        lemma_digit_char(n2 as int % 10);
        assert(whole[2] == rest1[0]);
        assert((d2 + rest2)[2] == d2[2]);
    } else if d2.len() < d1.len() {
        lemma_digit_char(n1 as int % 10);
        assert((d2 + rest2)[2] == rest2[0]);
        assert(whole[2] == d1[2]);
    } else {
        let len = d1.len() as int;
        assert(d1 =~= whole.take(len));
        assert(d2 =~= (d2 + rest2).take(len));
        assert(rest1 =~= whole.skip(len));
        assert(rest2 =~= (d2 + rest2).skip(len));
        lemma_padded_decimal_known(n1, n2);
    }
}

/// A padded decimal text followed by an underscore and more is known
/// from the whole, and so is what follows the underscore.
proof fn lemma_decimal_field(n1: u8, more1: Seq<char>, n2: u8, more2: Seq<char>)
    requires
        padded_decimal(n1) + (seq!['_'] + more1) == padded_decimal(n2) + (seq!['_'] + more2),
    ensures
        n1 == n2,
        more1 == more2,
{
    let rest1 = seq!['_'] + more1;
    let rest2 = seq!['_'] + more2;
    lemma_decimal_prefix(n1, rest1, n2, rest2);
    assert(more1 =~= rest1.skip(1));
    assert(more2 =~= rest2.skip(1));
}

/// The text of an identifier, with its fields set off one after another.
proof fn lemma_text_shape(map_id: u32)
    ensures
        map_id_text(map_id) == seq!['m'] + (padded_decimal(area_of(map_id)) + (seq!['_'] + (
            padded_decimal(grid_x_of(map_id)) + (seq!['_'] + (padded_decimal(grid_z_of(map_id)) + (
                seq!['_'] + (padded_decimal(reserved_of(map_id)) + Seq::<char>::empty())
            )))
        ))),
{
    let shaped = seq!['m'] + (padded_decimal(area_of(map_id)) + (seq!['_'] + (padded_decimal(
        grid_x_of(map_id),
    ) + (seq!['_'] + (padded_decimal(grid_z_of(map_id)) + (seq!['_'] + (padded_decimal(
        reserved_of(map_id),
    ) + Seq::<char>::empty())))))));
    assert(map_id_text(map_id) =~= shaped);
}

/// An identifier is known by its text: two identifiers with the same
/// text are the same.
pub proof fn lemma_text_determines_id(a: u32, b: u32)
    requires
        map_id_text(a) == map_id_text(b),
    ensures
        a == b,
{
    lemma_text_shape(a);
    lemma_text_shape(b);
    let a3 = padded_decimal(reserved_of(a)) + Seq::<char>::empty();
    let b3 = padded_decimal(reserved_of(b)) + Seq::<char>::empty();
    let a2 = padded_decimal(grid_z_of(a)) + (seq!['_'] + a3);
    let b2 = padded_decimal(grid_z_of(b)) + (seq!['_'] + b3);
    let a1 = padded_decimal(grid_x_of(a)) + (seq!['_'] + a2);
    let b1 = padded_decimal(grid_x_of(b)) + (seq!['_'] + b2);
    let a0 = padded_decimal(area_of(a)) + (seq!['_'] + a1);
    let b0 = padded_decimal(area_of(b)) + (seq!['_'] + b1);
    assert(a0 == b0) by {
        assert(a0 =~= (seq!['m'] + a0).skip(1));
        assert(b0 =~= (seq!['m'] + b0).skip(1));
    }
    lemma_decimal_field(area_of(a), a1, area_of(b), b1);
    lemma_decimal_field(grid_x_of(a), a2, grid_x_of(b), b2);
    lemma_decimal_field(grid_z_of(a), a3, grid_z_of(b), b3);
    lemma_decimal_prefix(reserved_of(a), Seq::empty(), reserved_of(b), Seq::empty());
    lemma_bytes_by_shift(a);
    lemma_bytes_by_shift(b);
}

/// Splits a packed identifier into area, grid X, grid Z and reserved byte.
pub fn split_map_id(map_id: u32) -> (parts: (u8, u8, u8, u8))
    ensures
        parts.0 == area_of(map_id),
        parts.1 == grid_x_of(map_id),
        parts.2 == grid_z_of(map_id),
        parts.3 == reserved_of(map_id),
{
    proof {
        lemma_bytes_by_shift(map_id);
    }
    let ww = ((map_id >> 24) & 0xFF) as u8;
    let xx = ((map_id >> 16) & 0xFF) as u8;
    let yy = ((map_id >> 8) & 0xFF) as u8;
    let dd = (map_id & 0xFF) as u8;
    (ww, xx, yy, dd)
}

/// Packs a tile's three bytes with a zero reserved byte.
pub fn pack_map_id(area: u8, grid_x: u8, grid_z: u8) -> (map_id: u32)
    ensures
        map_id == packed(area, grid_x, grid_z, 0),
        tile_of(map_id) == (TileKey { area, grid_x, grid_z }),
        reserved_of(map_id) == 0,
{
    proof {
        lemma_pack_then_parse(area, grid_x, grid_z, 0);
    }
    let a: u32 = area as u32;
    let x: u32 = grid_x as u32;
    let z: u32 = grid_z as u32;
    let map_id: u32 = (a << 24) | (x << 16) | (z << 8);
    assert(((a << 24) | (x << 16) | (z << 8)) == a * 0x100_0000 + x * 0x1_0000 + z * 0x100)
        by (bit_vector)
        requires
            a < 256,
            x < 256,
            z < 256,
    ;
    map_id
}

/// The text of one decimal digit.
fn digit_text(d: u8) -> (text: &'static str)
    requires
        d < 10,
    ensures
        text@ == seq![digit_char(d as int)],
{
    proof {
        reveal_strlit("0");
        reveal_strlit("1");
        reveal_strlit("2");
        reveal_strlit("3");
        reveal_strlit("4");
        reveal_strlit("5");
        reveal_strlit("6");
        reveal_strlit("7");
        reveal_strlit("8");
        reveal_strlit("9");
    }
    let text = match d {
        0 => "0",
        1 => "1",
        2 => "2",
        3 => "3",
        4 => "4",
        5 => "5",
        6 => "6",
        7 => "7",
        8 => "8",
        _ => "9",
    };
    assert(text@ =~= seq![digit_char(d as int)]);
    text
}

/// Appends a byte in decimal, padded with a zero to two digits.
fn push_padded_decimal(out: &mut String, n: u8)
    ensures
        final(out)@ == old(out)@ + padded_decimal(n),
{
    if n >= 100 {
        out.append(digit_text(n / 100));
    }
    out.append(digit_text(n / 10 % 10));
    out.append(digit_text(n % 10));
    proof {
        reveal(padded_decimal);
    }
    assert(out@ =~= old(out)@ + padded_decimal(n));
}

/// Renders a packed identifier in its canonical text form.
pub fn render_map_id(map_id: u32) -> (text: String)
    ensures
        text@ == map_id_text(map_id),
{
    proof {
        reveal_strlit("m");
        reveal_strlit("_");
    }
    let (ww, xx, yy, dd) = split_map_id(map_id);
    let mut out = String::from_str("m");
    push_padded_decimal(&mut out, ww);
    out.append("_");
    push_padded_decimal(&mut out, xx);
    out.append("_");
    push_padded_decimal(&mut out, yy);
    out.append("_");
    push_padded_decimal(&mut out, dd);
    assert(out@ =~= map_id_text(map_id));
    out
}

} // verus!
