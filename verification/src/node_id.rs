//! Node identities and their textual handles.
//!
//! A node identity is the 64-bit FFI form of a slot-map key: the slot index in
//! the low half and the (always odd) slot version in the high half.

use vstd::prelude::*;

verus! {

/// The bit that every occupied slot version carries.
pub const VERSION_LOW_BIT: u64 = 0x1_0000_0000u64;

/// The canonical form of a raw handle: the form in which the slot map
/// interprets it (its version is forced odd).
pub open spec fn canonical_raw(raw: u64) -> u64 {
    raw | 0x1_0000_0000u64
}

pub proof fn lemma_canonical_idempotent(raw: u64)
    ensures
        canonical_raw(canonical_raw(raw)) == canonical_raw(raw),
{
    assert((raw | 0x1_0000_0000u64) | 0x1_0000_0000u64 == raw | 0x1_0000_0000u64) by (bit_vector);
}

/// A non-owning reference to a DOM node. It may outlive the node it names;
/// every use is checked against the arena.
#[derive(Clone, Copy, Debug, PartialEq, Eq, Hash, Structural)]
pub struct NodeId {
    pub(crate) raw: u64,
}

impl NodeId {
    #[verifier::type_invariant]
    spec fn canonical(self) -> bool {
        canonical_raw(self.raw) == self.raw
    }

    pub closed spec fn view(self) -> u64 {
        self.raw
    }
}

impl NodeId {
    /// The FFI form of this identity.
    pub fn raw(self) -> (r: u64)
        ensures
            r == self@,
            canonical_raw(r) == r,
    {
        proof {
            use_type_invariant(&self);
        }
        self.raw
    }

    /// The identity that `KeyData::from_ffi` makes of a raw handle: the slot
    /// version is forced odd.
    pub fn from_ffi(raw: u64) -> (id: NodeId)
        ensures
            id@ == canonical_raw(raw),
    {
        proof {
            lemma_canonical_idempotent(raw);
        }
        NodeId { raw: raw | VERSION_LOW_BIT }
    }

    /// Rebuilds an identity from a value that is already canonical.
    pub fn from_canonical(raw: u64) -> (id: NodeId)
        requires
            canonical_raw(raw) == raw,
        ensures
            id@ == raw,
    {
        NodeId { raw }
    }

    pub proof fn lemma_view_injective(a: NodeId, b: NodeId)
        ensures
            a@ == b@ <==> a == b,
    {
    }
}

/// The decimal digits of `n`, most significant first, without leading zeros
/// (`"0"` for zero).
pub open spec fn decimal(n: nat) -> Seq<char>
    decreases n,
{
    if n < 10 {
        seq![digit_char(n)]
    } else {
        decimal(n / 10).push(digit_char(n % 10))
    }
}

pub open spec fn digit_char(d: nat) -> char {
    ((d + 48) as u8) as char
}

/// The lowest `width` hexadecimal digits of `n` in lower case, most
/// significant first.
pub open spec fn hex_digits(n: nat, width: nat) -> Seq<char>
    decreases width,
{
    if width == 0 {
        Seq::empty()
    } else {
        hex_digits(n / 16, (width - 1) as nat).push(hex_char(n % 16))
    }
}

pub open spec fn hex_char(d: nat) -> char {
    if d < 10 {
        ((d + 48) as u8) as char
    } else {
        ((d - 10 + 97) as u8) as char
    }
}

/// Collects characters into a string with `FromIterator<char>`.
#[verifier::external_body]
pub(crate) fn string_from_chars(chars: &Vec<char>) -> (s: String)
    ensures
        s@ == chars@,
{
    chars.iter().collect()
}

/// The decimal text of `n`, as `u64::to_string` writes it.
pub fn decimal_string(n: u64) -> (s: String)
    ensures
        s@ == decimal(n as nat),
{
    let mut digits: Vec<char> = Vec::new();
    let mut rest: u64 = n;
    // `digits` holds the already consumed low digits, least significant first.
    while rest >= 10
        invariant
            decimal(n as nat) == decimal(rest as nat) + digits@.reverse(),
        decreases rest,
    {
        let c = ((rest % 10) as u8 + 48) as char;
        let ghost before = digits@;
        digits.push(c);
        proof {
            assert(c == digit_char((rest % 10) as nat));
            assert(digits@.reverse() =~= seq![c] + before.reverse());
            assert(decimal(rest as nat) == decimal((rest / 10) as nat).push(c));
            assert(decimal(rest as nat) + before.reverse() =~= decimal((rest / 10) as nat)
                + digits@.reverse());
        }
        rest = rest / 10;
    }
    let c = (rest as u8 + 48) as char;
    let ghost before = digits@;
    digits.push(c);
    proof {
        assert(c == digit_char(rest as nat));
        assert(digits@.reverse() =~= seq![c] + before.reverse());
        assert(decimal(n as nat) =~= digits@.reverse());
    }
    let mut forward: Vec<char> = Vec::new();
    let mut i: usize = digits.len();
    while i > 0
        invariant
            i <= digits@.len(),
            forward@ == digits@.subrange(i as int, digits@.len() as int).reverse(),
        decreases i,
    {
        i = i - 1;
        let ghost before = forward@;
        forward.push(digits[i]);
        proof {
            assert(forward@ =~= digits@.subrange(i as int, digits@.len() as int).reverse());
        }
    }
    proof {
        assert(digits@.subrange(0, digits@.len() as int) =~= digits@);
        assert(forward@ =~= decimal(n as nat));
    }
    string_from_chars(&forward)
}

/// The value of a run of decimal digits.
pub open spec fn digits_value(s: Seq<char>) -> nat
    decreases s.len(),
{
    if s.len() == 0 {
        0
    } else {
        digits_value(s.drop_last()) * 10 + ((s.last() as nat) - 48) as nat
    }
}

pub open spec fn is_digit(c: char) -> bool {
    '0' <= c <= '9'
}

/// What `u64::from_str` accepts: an optional `+`, then one or more decimal
/// digits whose value fits in 64 bits.
pub open spec fn parse_u64(s: Seq<char>) -> Option<u64> {
    let body = unsigned_body(s);
    if body.len() > 0 && all_digits(body) && digits_value(body) <= u64::MAX {
        Some(digits_value(body) as u64)
    } else {
        None
    }
}

pub open spec fn all_digits(s: Seq<char>) -> bool {
    forall|i: int| 0 <= i < s.len() ==> is_digit(#[trigger] s[i])
}

/// The text after an optional leading `+`.
pub open spec fn unsigned_body(s: Seq<char>) -> Seq<char> {
    if s.len() > 0 && s[0] == '+' {
        s.drop_first()
    } else {
        s
    }
}

/// Parses decimal text as `u64::from_str` does.
pub fn parse_decimal(s: &str) -> (r: Option<u64>)
    ensures
        r == parse_u64(s@),
{
    let len = s.unicode_len();
    let mut start: usize = 0;
    if len > 0 && s.get_char(0) == '+' {
        start = 1;
    }
    let ghost body = unsigned_body(s@);
    proof {
        assert(body =~= s@.subrange(start as int, len as int));
    }
    if start >= len {
        return None;
    }
    let mut value: u64 = 0;
    let mut i: usize = start;
    while i < len
        invariant
            start <= i <= len,
            len == s@.len(),
            body == s@.subrange(start as int, len as int),
            body == unsigned_body(s@),
            forall|j: int| start <= j < i ==> is_digit(#[trigger] s@[j]),
            value as nat == digits_value(s@.subrange(start as int, i as int)),
        decreases len - i,
    {
        let c = s.get_char(i);
        proof {
            assert(s@.subrange(start as int, i + 1).drop_last() =~= s@.subrange(
                start as int,
                i as int,
            ));
        }
        if !('0' <= c && c <= '9') {
            proof {
                assert(s@[i as int] == c);
                assert(body[i - start] == c);
                assert(!is_digit(c));
                assert(!is_digit(body[i - start]));
                assert(!all_digits(body));

            }
            return None;
        }
        let d = (c as u32 - 48) as u64;
        proof {
            let p = s@.subrange(start as int, i + 1);
            assert(p.last() == c);
            assert(digits_value(p) == value * 10 + d);
        }
        let times_ten = value.checked_mul(10);
        match times_ten {
            None => {
                proof {
                    lemma_digits_value_grows(s@.subrange(start as int, len as int), (i - start) as int);
                    assert(s@.subrange(start as int, len as int).subrange(0, (i - start) + 1) =~= s@.subrange(start as int, i + 1));
                }
                return None;
            },
            Some(t) => {
                match t.checked_add(d) {
                    None => {
                        proof {
                            lemma_digits_value_grows(s@.subrange(start as int, len as int), (i - start) as int);
                            assert(s@.subrange(start as int, len as int).subrange(0, (i - start) + 1) =~= s@.subrange(start as int, i + 1));
                        }
                        return None;
                    },
                    Some(v) => {
                        value = v;
                    },
                }
            },
        }
        i = i + 1;
    }
    proof {
        assert forall|j: int| 0 <= j < body.len() implies is_digit(#[trigger] body[j]) by {
            assert(body[j] == s@[start + j]);
        }
    }
    Some(value)
}

/// The decimal digits of `n` are digits, the first is not a sign, and
/// they are worth `n`.
pub proof fn lemma_decimal_value(n: nat)
    ensures
        decimal(n).len() > 0,
        all_digits(decimal(n)),
        decimal(n)[0] != '+',
        digits_value(decimal(n)) == n,
    decreases n,
{
    if n < 10 {
        let c = digit_char(n);
        assert(c as nat == n + 48);
        assert(seq![c].drop_last() =~= Seq::<char>::empty());
        assert(digits_value(seq![c].drop_last()) == 0);
        assert(digits_value(seq![c]) == 0 * 10 + ((c as nat) - 48) as nat);
    } else {
        lemma_decimal_value(n / 10);
        let s = decimal(n / 10);
        let c = digit_char(n % 10);
        assert(c as nat == n % 10 + 48);
        assert(s.push(c).drop_last() =~= s);
        assert(s.push(c)[0] == s[0]);
        assert forall|i: int| 0 <= i < s.push(c).len() implies is_digit(#[trigger] s.push(c)[i]) by {
            if i < s.len() {
                assert(is_digit(s[i]));
            }
        }
        assert((n / 10) * 10 + n % 10 == n) by (nonlinear_arith);
        assert(s.push(c).last() == c);
        assert(digits_value(s.push(c)) == digits_value(s) * 10 + ((c as nat) - 48) as nat);
    }
}

/// The decimal text of a 64-bit number parses back to that number.
pub proof fn lemma_decimal_round_trip(n: u64)
    ensures
        parse_u64(decimal(n as nat)) == Some(n),
{
    lemma_decimal_value(n as nat);
    assert(unsigned_body(decimal(n as nat)) == decimal(n as nat));
}

/// A longer run of digits is worth at least as much as any prefix of it.
pub proof fn lemma_digits_value_grows(s: Seq<char>, k: int)
    requires
        0 <= k < s.len(),
    ensures
        digits_value(s) >= digits_value(s.subrange(0, k + 1)),
    decreases s.len(),
{
    if k + 1 < s.len() {
        assert(s.drop_last().subrange(0, k + 1) =~= s.subrange(0, k + 1));
        lemma_digits_value_grows(s.drop_last(), k);
    } else {
        assert(s.subrange(0, k + 1) =~= s);
    }
}

/// The numbers that `width` hexadecimal digits can write: `16^width`.
pub open spec fn hex_range(width: nat) -> nat
    decreases width,
{
    if width == 0 {
        1
    } else {
        16 * hex_range((width - 1) as nat)
    }
}

/// Below `16^width`, two numbers with the same `width` hexadecimal digits
/// are equal.
pub proof fn lemma_hex_digits_injective(a: nat, b: nat, width: nat)
    requires
        a < hex_range(width),
        b < hex_range(width),
        hex_digits(a, width) == hex_digits(b, width),
    ensures
        a == b,
    decreases width,
{
    if width > 0 {
        let w1 = (width - 1) as nat;
        let da = hex_digits(a, width);
        assert(da.last() == hex_char(a % 16));
        assert(hex_digits(b, width).last() == hex_char(b % 16));
        assert(a % 16 == b % 16) by {
            let x = a % 16;
            let y = b % 16;
            assert(hex_char(x) == hex_char(y));
            if x < 10 && y < 10 {
                assert(((x + 48) as u8) as char as nat == x + 48);
                assert(((y + 48) as u8) as char as nat == y + 48);
            } else if x >= 10 && y >= 10 {
                assert(((x - 10 + 97) as u8) as char as nat == x + 87);
                assert(((y - 10 + 97) as u8) as char as nat == y + 87);
            } else if x < 10 {
                assert(((x + 48) as u8) as char as nat == x + 48);
                assert(((y - 10 + 97) as u8) as char as nat == y + 87);
            } else {
                assert(((y + 48) as u8) as char as nat == y + 48);
                assert(((x - 10 + 97) as u8) as char as nat == x + 87);
            }
        }
        assert(hex_digits(a / 16, w1) == da.drop_last());
        assert(hex_digits(b / 16, w1) == hex_digits(b, width).drop_last());
        let r = hex_range(w1);
        assert(a / 16 < r) by (nonlinear_arith)
            requires
                a < 16 * r,
        ;
        assert(b / 16 < r) by (nonlinear_arith)
            requires
                b < 16 * r,
        ;
        lemma_hex_digits_injective(a / 16, b / 16, w1);
        assert(a == 16 * (a / 16) + a % 16);
        assert(b == 16 * (b / 16) + b % 16);
    }
}

/// Two node identities get the same sixteen-digit handle only when they
/// are the same identity, generation included.
pub proof fn lemma_encode_injective(a: NodeId, b: NodeId)
    requires
        hex_digits(a@ as nat, 16) == hex_digits(b@ as nat, 16),
    ensures
        a == b,
{
    assert(hex_range(16) == 0x1_0000_0000_0000_0000) by {
        reveal_with_fuel(hex_range, 17);
    }
    lemma_hex_digits_injective(a@ as nat, b@ as nat, 16);
    NodeId::lemma_view_injective(a, b);
}

/// The sixteen lower-case hexadecimal digits of a node identity, as
/// `format!("{:016x}", id)` writes them.
pub fn encode_node_id(id: NodeId) -> (s: String)
    ensures
        s@ == hex_digits(id@ as nat, 16),
        s@.len() == 16,
{
    let raw = id.raw();
    let mut digits: Vec<char> = Vec::new();
    let mut rest: u64 = raw;
    let mut k: usize = 0;
    while k < 16
        invariant
            k <= 16,
            digits@.len() == k,
            hex_digits(raw as nat, 16) == hex_digits(rest as nat, (16 - k) as nat) + digits@.reverse(),
        decreases 16 - k,
    {
        let d = (rest % 16) as u8;
        let c = if d < 10 {
            (d + 48) as char
        } else {
            (d - 10 + 97) as char
        };
        let ghost before = digits@;
        digits.push(c);
        proof {
            assert(c == hex_char((rest % 16) as nat));
            assert(digits@.reverse() =~= seq![c] + before.reverse());
            assert(hex_digits(rest as nat, (16 - k) as nat) == hex_digits((rest / 16) as nat, (16 - k - 1) as nat).push(c));
            assert(hex_digits(rest as nat, (16 - k) as nat) + before.reverse() =~= hex_digits(
                (rest / 16) as nat,
                (16 - k - 1) as nat,
            ) + digits@.reverse());
        }
        rest = rest / 16;
        k = k + 1;
    }
    let mut forward: Vec<char> = Vec::new();
    let mut i: usize = 16;
    while i > 0
        invariant
            i <= 16,
            digits@.len() == 16,
            forward@ == digits@.subrange(i as int, 16).reverse(),
        decreases i,
    {
        i = i - 1;
        forward.push(digits[i]);
        proof {
            assert(forward@ =~= digits@.subrange(i as int, 16).reverse());
        }
    }
    proof {
        assert(digits@.subrange(0, 16) =~= digits@);
        assert(forward@ =~= hex_digits(raw as nat, 16));
    }
    string_from_chars(&forward)
}

} // verus!
