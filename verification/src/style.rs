//! The style declarations that the document model carries: `position` and
//! `z-index`, which stacking and layout lowering read. Keywords match
//! without regard to ASCII case; `z-index` is `auto` or an integer with an
//! optional sign that fits in 32 bits.

use vstd::prelude::*;

use crate::dom::{ElementStyle, Position, ZIndex};
use crate::node_id::{all_digits, decimal, digits_value, is_digit, lemma_decimal_value, lemma_digits_value_grows};
use crate::text::{ascii_lower, ascii_lowercase, chars_eq_str, chars_of};

verus! {

/// The style properties an element carries.
pub open spec fn supported_property(name: Seq<char>) -> bool {
    name == "position"@ || name == "z-index"@
}

/// The `position` keyword `value` names.
pub open spec fn position_value(value: Seq<char>) -> Option<Position> {
    let lower = ascii_lower(value);
    if lower == "static"@ {
        Some(Position::Static)
    } else if lower == "relative"@ {
        Some(Position::Relative)
    } else if lower == "absolute"@ {
        Some(Position::Absolute)
    } else if lower == "fixed"@ {
        Some(Position::Fixed)
    } else {
        None
    }
}

/// The keyword of a `position`.
pub open spec fn position_keyword(p: Position) -> Seq<char> {
    match p {
        Position::Static => "static"@,
        Position::Relative => "relative"@,
        Position::Absolute => "absolute"@,
        Position::Fixed => "fixed"@,
    }
}

/// Reading `position`, as a law: each of the four keywords reads as its
/// own value, whatever the ASCII case of its letters; a value reads as a
/// position only when it is one of those keywords; and the keyword of what
/// was read is the value in lower case, so reading the keyword a position
/// is written with gives that position back.
pub proof fn lemma_position_keywords(value: Seq<char>, p: Position)
    ensures
        position_value("static"@) == Some(Position::Static),
        position_value("relative"@) == Some(Position::Relative),
        position_value("absolute"@) == Some(Position::Absolute),
        position_value("fixed"@) == Some(Position::Fixed),
        position_value(value) == position_value(ascii_lower(value)),
        position_value(value) == Some(p) <==> ascii_lower(value) == position_keyword(p),
        position_value(position_keyword(p)) == Some(p),
{
    reveal_strlit("static");
    reveal_strlit("relative");
    reveal_strlit("absolute");
    reveal_strlit("fixed");
    assert(ascii_lower("static"@) =~= "static"@);
    assert(ascii_lower("relative"@) =~= "relative"@);
    assert(ascii_lower("absolute"@) =~= "absolute"@);
    assert(ascii_lower("fixed"@) =~= "fixed"@);
    assert(ascii_lower(ascii_lower(value)) =~= ascii_lower(value));
    assert("static"@ != "relative"@);
    assert("relative"@[0] != "absolute"@[0]);
    assert("static"@ != "absolute"@);
    assert("static"@ != "fixed"@);
    assert("relative"@ != "fixed"@);
    assert("absolute"@ != "fixed"@);
}

/// The digits of an integer after its optional sign.
pub open spec fn unsigned_digits(value: Seq<char>) -> Seq<char> {
    if value.len() > 0 && (value[0] == '-' || value[0] == '+') {
        value.drop_first()
    } else {
        value
    }
}

/// The `z-index` that `value` names.
pub open spec fn z_index_value(value: Seq<char>) -> Option<ZIndex> {
    let digits = unsigned_digits(value);
    let negative = value.len() > 0 && value[0] == '-';
    if ascii_lower(value) == "auto"@ {
        Some(ZIndex::Auto)
    } else if digits.len() > 0 && all_digits(digits) && (if negative {
        digits_value(digits) <= 0x8000_0000
    } else {
        digits_value(digits) <= 0x7fff_ffff
    }) {
        Some(
            ZIndex::Level(
                (if negative {
                    -(digits_value(digits) as int)
                } else {
                    digits_value(digits) as int
                }) as i32,
            ),
        )
    } else {
        None
    }
}

/// The decimal text of a 32-bit integer.
pub open spec fn integer_text(z: i32) -> Seq<char> {
    if z < 0 {
        seq!['-'] + decimal((-(z as int)) as nat)
    } else {
        decimal(z as nat)
    }
}

/// Reading `z-index`, as a law: `auto` reads as `auto` whatever its ASCII
/// case, and every 32-bit integer, written in decimal with a leading minus
/// when negative, reads back as that integer.
pub proof fn lemma_z_index_round_trip(z: i32)
    ensures
        z_index_value("auto"@) == Some(ZIndex::Auto),
        z_index_value("AUTO"@) == Some(ZIndex::Auto),
        z_index_value(integer_text(z)) == Some(ZIndex::Level(z)),
{
    reveal_strlit("auto");
    reveal_strlit("AUTO");
    assert(ascii_lower("auto"@) =~= "auto"@);
    assert(ascii_lower("AUTO"@) =~= "auto"@);
    let m: nat = if z < 0 {
        (-(z as int)) as nat
    } else {
        z as nat
    };
    lemma_decimal_value(m);
    let d = decimal(m);
    let t = integer_text(z);
    assert(is_digit(d[0]));
    if z < 0 {
        assert(t[0] == '-');
        assert(t.drop_first() =~= d);
        assert(unsigned_digits(t) == d);
    } else {
        assert(t == d);
        assert(d[0] != '-' && d[0] != '+');
        assert(unsigned_digits(t) == d);
    }
    assert(ascii_lower(t)[0] == t[0]);
    assert(ascii_lower(t) != "auto"@) by {
        assert("auto"@[0] == 'a');
    }
}

/// `style` with the declaration `name: value` applied, where the property
/// is carried and the value valid.
pub open spec fn declared(style: ElementStyle, name: Seq<char>, value: Seq<char>) -> Option<ElementStyle> {
    if name == "position"@ {
        match position_value(value) {
            Some(p) => Some(ElementStyle { position: p, ..style }),
            None => None,
        }
    } else if name == "z-index"@ {
        match z_index_value(value) {
            Some(z) => Some(ElementStyle { z_index: z, ..style }),
            None => None,
        }
    } else {
        None
    }
}

/// `style` with the declaration of `name` removed: the property goes back
/// to its initial value.
pub open spec fn undeclared(style: ElementStyle, name: Seq<char>) -> Option<ElementStyle> {
    if name == "position"@ {
        Some(ElementStyle { position: Position::Static, ..style })
    } else if name == "z-index"@ {
        Some(ElementStyle { z_index: ZIndex::Auto, ..style })
    } else {
        None
    }
}

/// Whether the element style carries the property `name`.
pub fn supports_property(name: &str) -> (r: bool)
    ensures
        r == supported_property(name@),
{
    let chars = chars_of(name);
    chars_eq_str(&chars, "position") || chars_eq_str(&chars, "z-index")
}

/// Reads a `position` keyword.
pub fn parse_position(value: &str) -> (r: Option<Position>)
    ensures
        r == position_value(value@),
{
    let lower = ascii_lowercase(value);
    if chars_eq_str(&lower, "static") {
        Some(Position::Static)
    } else if chars_eq_str(&lower, "relative") {
        Some(Position::Relative)
    } else if chars_eq_str(&lower, "absolute") {
        Some(Position::Absolute)
    } else if chars_eq_str(&lower, "fixed") {
        Some(Position::Fixed)
    } else {
        None
    }
}

/// Reads a `z-index` value.
pub fn parse_z_index(value: &str) -> (r: Option<ZIndex>)
    ensures
        r == z_index_value(value@),
{
    let lower = ascii_lowercase(value);
    if chars_eq_str(&lower, "auto") {
        return Some(ZIndex::Auto);
    }
    let chars = chars_of(value);
    let n = chars.len();
    let negative = n > 0 && chars[0] == '-';
    let start: usize = if n > 0 && (chars[0] == '-' || chars[0] == '+') {
        1
    } else {
        0
    };
    let ghost digits = unsigned_digits(value@);
    proof {
        assert(digits =~= chars@.subrange(start as int, n as int));
    }
    if start >= n {
        return None;
    }
    let limit: u64 = if negative {
        0x8000_0000
    } else {
        0x7fff_ffff
    };
    let mut magnitude: u64 = 0;
    let mut i: usize = start;
    while i < n
        invariant
            start <= i <= n,
            n == chars@.len(),
            chars@ == value@,
            digits == chars@.subrange(start as int, n as int),
            forall|j: int| start <= j < i ==> '0' <= #[trigger] chars@[j] <= '9',
            magnitude as nat == digits_value(chars@.subrange(start as int, i as int)),
            magnitude <= limit,
            limit <= 0x8000_0000,
            ascii_lower(value@) != "auto"@,
            digits == unsigned_digits(value@),
            negative == (value@.len() > 0 && value@[0] == '-'),
            limit == if negative {
                0x8000_0000u64
            } else {
                0x7fff_ffffu64
            },
        decreases n - i,
    {
        let c = chars[i];
        proof {
            assert(chars@.subrange(start as int, i + 1).drop_last() =~= chars@.subrange(
                start as int,
                i as int,
            ));
            assert(chars@.subrange(start as int, i + 1).last() == c);
        }
        if !('0' <= c && c <= '9') {
            proof {
                assert(digits[i - start] == c);
                assert(!crate::node_id::is_digit(digits[i - start]));
            }
            return None;
        }
        magnitude = magnitude * 10 + (c as u32 - 48) as u64;
        proof {
            assert(digits_value(chars@.subrange(start as int, i + 1)) == magnitude);
        }
        if magnitude > limit {
            proof {
                lemma_digits_value_grows(digits, (i - start) as int);
                assert(digits.subrange(0, (i - start) + 1) =~= chars@.subrange(start as int, i + 1));
            }
            return None;
        }
        i = i + 1;
    }
    proof {
        assert forall|j: int| 0 <= j < digits.len() implies '0' <= #[trigger] digits[j] <= '9' by {
            assert(digits[j] == chars@[start + j]);
        }
    }
    if negative {
        Some(ZIndex::Level((0 - (magnitude as i64)) as i32))
    } else {
        Some(ZIndex::Level(magnitude as i32))
    }
}

/// `style` with the declaration `name: value` applied, if the property is
/// carried and the value valid.
pub fn apply_declaration(style: ElementStyle, name: &str, value: &str) -> (r: Option<ElementStyle>)
    ensures
        r == declared(style, name@, value@),
{
    let chars = chars_of(name);
    if chars_eq_str(&chars, "position") {
        match parse_position(value) {
            Some(p) => Some(ElementStyle { position: p, ..style }),
            None => None,
        }
    } else if chars_eq_str(&chars, "z-index") {
        match parse_z_index(value) {
            Some(z) => Some(ElementStyle { z_index: z, ..style }),
            None => None,
        }
    } else {
        None
    }
}

/// `style` with the declaration of `name` removed, if the property is
/// carried.
pub fn remove_declaration(style: ElementStyle, name: &str) -> (r: Option<ElementStyle>)
    ensures
        r == undeclared(style, name@),
{
    let chars = chars_of(name);
    if chars_eq_str(&chars, "position") {
        Some(ElementStyle { position: Position::Static, ..style })
    } else if chars_eq_str(&chars, "z-index") {
        Some(ElementStyle { z_index: ZIndex::Auto, ..style })
    } else {
        None
    }
}

} // verus!
