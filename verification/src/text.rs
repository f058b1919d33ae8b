//! Verified text building for node labels: fixed-width hexadecimal keys,
//! decimal numbers, length display, column padding and the rendering of a
//! decoded element value.

use vstd::prelude::*;

verus! {

/// A value length whose display is not a number: the source marks lengths it
/// does not know with this sentinel.
pub const UNDEFINED_LENGTH: u32 = 0xFFFF_FFFF;

/// The width used to align values whose length the source left undefined.
pub const PLACEHOLDER_WIDTH: u32 = 5;

pub open spec fn hex_digit(d: int) -> char {
    if d == 0 {
        '0'
    } else if d == 1 {
        '1'
    } else if d == 2 {
        '2'
    } else if d == 3 {
        '3'
    } else if d == 4 {
        '4'
    } else if d == 5 {
        '5'
    } else if d == 6 {
        '6'
    } else if d == 7 {
        '7'
    } else if d == 8 {
        '8'
    } else if d == 9 {
        '9'
    } else if d == 10 {
        'a'
    } else if d == 11 {
        'b'
    } else if d == 12 {
        'c'
    } else if d == 13 {
        'd'
    } else if d == 14 {
        'e'
    } else {
        'f'
    }
}

/// Four lower-case hexadecimal digits, most significant first.
pub open spec fn hex4_spec(v: u16) -> Seq<char> {
    seq![
        hex_digit(v as int / 4096 % 16),
        hex_digit(v as int / 256 % 16),
        hex_digit(v as int / 16 % 16),
        hex_digit(v as int % 16),
    ]
}

pub open spec fn dec_digit(d: int) -> char {
    if d == 0 {
        '0'
    } else if d == 1 {
        '1'
    } else if d == 2 {
        '2'
    } else if d == 3 {
        '3'
    } else if d == 4 {
        '4'
    } else if d == 5 {
        '5'
    } else if d == 6 {
        '6'
    } else if d == 7 {
        '7'
    } else if d == 8 {
        '8'
    } else {
        '9'
    }
}

/// Decimal digits of a non-negative number, no leading zeros.
pub open spec fn dec_spec(v: int) -> Seq<char>
    decreases v,
{
    if v < 10 {
        seq![dec_digit(v)]
    } else {
        dec_spec(v / 10) + seq![dec_digit(v % 10)]
    }
}

/// `n` spaces.
pub open spec fn spaces(n: nat) -> Seq<char>
    decreases n,
{
    if n == 0 {
        Seq::empty()
    } else {
        spaces((n - 1) as nat).push(' ')
    }
}

/// `s` padded on the right with spaces to width `w`; longer strings are kept
/// whole.
pub open spec fn pad_spec(s: Seq<char>, w: int) -> Seq<char> {
    if s.len() >= w {
        s
    } else {
        s + spaces((w - s.len()) as nat)
    }
}

/// How a value length is displayed: the unknown-length sentinel has a fixed
/// marker, every other length is decimal.
pub open spec fn len_display_spec(l: u32) -> Seq<char> {
    if l == UNDEFINED_LENGTH {
        "U/L"@
    } else {
        dec_spec(l as int)
    }
}

/// One hexadecimal digit as a string slice.
fn hex_digit_str(d: u16) -> (r: &'static str)
    requires
        d < 16,
    ensures
        r@ == seq![hex_digit(d as int)],
{
    proof {
        reveal_strlit("0");
        reveal_strlit("1");
        reveal_strlit("2");
        reveal_strlit("3");
        reveal_strlit("4");
        reveal_strlit("5");
        reveal_strlit("6");
        reveal_strlit("7");
        reveal_strlit("8");
        reveal_strlit("9");
        reveal_strlit("a");
        reveal_strlit("b");
        reveal_strlit("c");
        reveal_strlit("d");
        reveal_strlit("e");
        reveal_strlit("f");
    }
    match d {
        0 => "0",
        1 => "1",
        2 => "2",
        3 => "3",
        4 => "4",
        5 => "5",
        6 => "6",
        7 => "7",
        8 => "8",
        9 => "9",
        10 => "a",
        11 => "b",
        12 => "c",
        13 => "d",
        14 => "e",
        _ => "f",
    }
}

/// One decimal digit as a string slice.
fn dec_digit_str(d: u32) -> (r: &'static str)
    requires
        d < 10,
    ensures
        r@ == seq![dec_digit(d as int)],
{
    proof {
        reveal_strlit("0");
        reveal_strlit("1");
        reveal_strlit("2");
        reveal_strlit("3");
        reveal_strlit("4");
        reveal_strlit("5");
        reveal_strlit("6");
        reveal_strlit("7");
        reveal_strlit("8");
        reveal_strlit("9");
    }
    match d {
        0 => "0",
        1 => "1",
        2 => "2",
        3 => "3",
        4 => "4",
        5 => "5",
        6 => "6",
        7 => "7",
        8 => "8",
        _ => "9",
    }
}

/// A group or element key as four lower-case hexadecimal digits.
pub fn hex4(v: u16) -> (r: String)
    ensures
        r@ == hex4_spec(v),
{
    let mut r = String::new();
    r.append(hex_digit_str(v / 4096 % 16));
    r.append(hex_digit_str(v / 256 % 16));
    r.append(hex_digit_str(v / 16 % 16));
    r.append(hex_digit_str(v % 16));
    proof {
        assert(r@ =~= hex4_spec(v));
    }
    r
}

/// A number in decimal.
pub fn u32_dec(v: u32) -> (r: String)
    ensures
        r@ == dec_spec(v as int),
    decreases v,
{
    if v < 10 {
        String::from_str(dec_digit_str(v))
    } else {
        let mut r = u32_dec(v / 10);
        r.append(dec_digit_str(v % 10));
        r
    }
}

/// A count in decimal.
pub fn usize_dec(v: usize) -> (r: String)
    ensures
        r@ == dec_spec(v as int),
    decreases v,
{
    if v < 10 {
        String::from_str(dec_digit_str((v % 10) as u32))
    } else {
        let mut r = usize_dec(v / 10);
        r.append(dec_digit_str((v % 10) as u32));
        r
    }
}

/// The display form of a value length.
pub fn len_display(l: u32) -> (r: String)
    ensures
        r@ == len_display_spec(l),
{
    if l == UNDEFINED_LENGTH {
        proof {
            reveal_strlit("U/L");
        }
        String::from_str("U/L")
    } else {
        u32_dec(l)
    }
}

/// `s` padded on the right with spaces to `width` columns.
#[verifier::loop_isolation(false)]
pub fn pad_to(s: &str, width: usize) -> (r: String)
    ensures
        r@ == pad_spec(s@, width as int),
{
    let n = s.unicode_len();
    let mut r = String::from_str(s);
    if n >= width {
        return r;
    }
    let mut i: usize = 0;
    proof {
        reveal_strlit(" ");
    }
    while i < width - n
        invariant
            n < width,
            i <= width - n,
            r@ == s@ + spaces(i as nat),
        decreases width - n - i,
    {
        r.append(" ");
        proof {
            assert(" "@ =~= seq![' ']);
            assert(s@ + spaces((i + 1) as nat) =~= (s@ + spaces(i as nat)).push(' '));
        }
        i = i + 1;
    }
    r
}

/// What a decoded element value is, before display: a rendered primitive, a
/// sequence of a known number of items, or an encapsulated pixel stream.
#[derive(Debug)]
pub enum RawValue {
    Primitive(String),
    Sequence(usize),
    PixelSequence,
}

/// How a decoded value is shown: binary value representations get a marker,
/// long texts are cut to 77 characters and an ellipsis, sequences and pixel
/// streams are summarised.
pub open spec fn format_value_spec(vr: Seq<char>, v: RawValue) -> Seq<char> {
    match v {
        RawValue::Primitive(s) => if vr == "OB"@ || vr == "OW"@ {
            "<binary data>"@
        } else if s@.len() > 80 {
            s@.subrange(0, 77) + "..."@
        } else {
            s@
        },
        RawValue::Sequence(n) => "sequence with "@ + dec_spec(n as int) + " items"@,
        RawValue::PixelSequence => "pixel sequence"@,
    }
}

/// Character-wise string equality.
#[verifier::loop_isolation(false)]
pub fn str_eq(a: &str, b: &str) -> (r: bool)
    ensures
        r == (a@ == b@),
{
    let alen = a.unicode_len();
    let blen = b.unicode_len();
    if alen != blen {
        return false;
    }
    let mut i: usize = 0;
    while i < alen
        invariant
            i <= alen,
            forall|j: int| 0 <= j < i ==> a@[j] == b@[j],
        decreases alen - i,
    {
        if a.get_char(i) != b.get_char(i) {
            return false;
        }
        i = i + 1;
    }
    proof {
        assert(a@ =~= b@);
    }
    true
}

/// The display form of one decoded element value.
pub fn format_value(vr: &str, v: &RawValue) -> (r: String)
    ensures
        r@ == format_value_spec(vr@, *v),
{
    match v {
        RawValue::Primitive(s) => {
            if str_eq(vr, "OB") || str_eq(vr, "OW") {
                String::from_str("<binary data>")
            } else {
                if s.as_str().unicode_len() > 80 {
                    let mut r = String::from_str(s.as_str().substring_char(0, 77));
                    r.append("...");
                    r
                } else {
                    s.clone()
                }
            }
        },
        RawValue::Sequence(n) => {
            let mut r = String::from_str("sequence with ");
            r.append(usize_dec(*n).as_str());
            r.append(" items");
            proof {
                assert(r@ =~= "sequence with "@ + dec_spec(*n as int) + " items"@);
            }
            r
        },
        RawValue::PixelSequence => String::from_str("pixel sequence"),
    }
}

} // verus!
