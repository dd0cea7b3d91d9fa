//! Twenty-byte chain addresses and their hexadecimal text form.
use vstd::prelude::*;

verus! {

/// A chain address: twenty bytes, most significant first.
#[derive(Clone, Copy, Debug)]
pub struct Address {
    pub bytes: [u8; 20],
}

impl Address {
    /// Whether two addresses are the same.
    pub fn same_as(&self, other: &Address) -> (r: bool)
        ensures
            r == (self.bytes@ == other.bytes@),
    {
        let mut i: usize = 0;
        while i < 20
            invariant
                i <= 20,
                forall|j: int| 0 <= j < i ==> self.bytes@[j] == other.bytes@[j],
            decreases 20 - i,
        {
            if self.bytes[i] != other.bytes[i] {
                assert(self.bytes@[i as int] != other.bytes@[i as int]);
                return false;
            }
            i = i + 1;
        }
        assert(self.bytes@ =~= other.bytes@);
        true
    }
}

pub open spec fn is_hex_digit(c: char) -> bool {
    ('0' <= c && c <= '9') || ('a' <= c && c <= 'f') || ('A' <= c && c <= 'F')
}

pub open spec fn hex_digit_value(c: char) -> nat {
    if '0' <= c && c <= '9' {
        ((c as u32) - ('0' as u32)) as nat
    } else if 'a' <= c && c <= 'f' {
        ((c as u32) - ('a' as u32) + 10) as nat
    } else {
        ((c as u32) - ('A' as u32) + 10) as nat
    }
}

/// The hexadecimal digits of an address text: what follows an optional "0x".
pub open spec fn address_hex(s: Seq<char>) -> Seq<char> {
    if s.len() >= 2 && s[0] == '0' && s[1] == 'x' {
        s.skip(2)
    } else {
        s
    }
}

/// An address text: an optional "0x", then exactly forty hexadecimal digits.
pub open spec fn is_address_text(s: Seq<char>) -> bool {
    let h = address_hex(s);
    h.len() == 40 && forall|i: int| 0 <= i < 40 ==> is_hex_digit(#[trigger] h[i])
}

/// The bytes that an address text writes, two digits each, high digit first.
pub open spec fn address_bytes(s: Seq<char>) -> Seq<u8> {
    let h = address_hex(s);
    Seq::new(20, |i: int| (hex_digit_value(h[2 * i]) * 16 + hex_digit_value(h[2 * i + 1])) as u8)
}

/// Relies on `FromStr` of `ethers::types::Address` (fixed-hash's `H160`): it
/// strips one leading "0x" and reads forty hexadecimal digits of either case
/// as twenty bytes, high digit first.
#[verifier::external_body]
fn parse_address_bytes(text: &str) -> (r: Option<[u8; 20]>)
    requires
        is_address_text(text@),
    ensures
        r is Some && r->0@ == address_bytes(text@),
{
    text.parse::<ethers::types::Address>().ok().map(|a| a.0)
}

/// Reads an address written as forty hexadecimal digits, with or without a
/// leading "0x"; any other text is refused.
pub fn parse_address(text: &str) -> (r: Option<Address>)
    ensures
        r is Some <==> is_address_text(text@),
        r matches Some(a) ==> a.bytes@ == address_bytes(text@),
{
    let n = text.unicode_len();
    let start: usize = if n >= 2 && text.get_char(0) == '0' && text.get_char(1) == 'x' {
        2
    } else {
        0
    };
    let ghost h = address_hex(text@);
    assert(h =~= text@.skip(start as int));
    if n - start != 40 {
        return None;
    }
    let mut i: usize = start;
    while i < n
        invariant
            start <= i <= n,
            n == text@.len(),
            n - start == 40,
            h =~= text@.skip(start as int),
            forall|j: int| 0 <= j < i - start ==> is_hex_digit(#[trigger] h[j]),
        decreases n - i,
    {
        let c = text.get_char(i);
        if !(('0' <= c && c <= '9') || ('a' <= c && c <= 'f') || ('A' <= c && c <= 'F')) {
            assert(!is_hex_digit(h[i - start]));
            return None;
        }
        i = i + 1;
    }
    match parse_address_bytes(text) {
        Some(b) => Some(Address { bytes: b }),
        None => None,
    }
}

} // verus!
