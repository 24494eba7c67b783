//! Percent-encoding of URL components.
use vstd::prelude::*;

verus! {

/// The bytes that stand for themselves: letters, digits and `-`, `_`, `.`, `~`.
pub open spec fn unreserved(b: u8) -> bool {
    ||| 0x30 <= b <= 0x39
    ||| 0x41 <= b <= 0x5a
    ||| 0x61 <= b <= 0x7a
    ||| b == 0x2d || b == 0x5f || b == 0x2e || b == 0x7e
}

/// The upper-case hexadecimal digit for a number below 16.
pub open spec fn hex(n: u8) -> char {
    (if n < 10 {
        (0x30 + n) as u8
    } else {
        (0x41 + n - 10) as u8
    }) as char
}

pub open spec fn encoded_byte(b: u8) -> Seq<char> {
    if unreserved(b) {
        seq![b as char]
    } else {
        seq!['%', hex(b / 16), hex(b % 16)]
    }
}

/// The bytes, each as itself or as a percent sign and two hexadecimal digits.
pub open spec fn encoded(b: Seq<u8>) -> Seq<char>
    decreases b.len(),
{
    if b.len() == 0 {
        Seq::empty()
    } else {
        encoded(b.drop_last()) + encoded_byte(b.last())
    }
}

fn hex_digit(n: u8) -> (r: char)
    requires
        n < 16,
    ensures
        r == hex(n),
{
    if n < 10 {
        (0x30 + n) as char
    } else {
        (0x41 + (n - 10)) as char
    }
}

fn is_unreserved(b: u8) -> (r: bool)
    ensures
        r == unreserved(b),
{
    (0x30 <= b && b <= 0x39) || (0x41 <= b && b <= 0x5a) || (0x61 <= b && b <= 0x7a) || b == 0x2d || b == 0x5f || b
        == 0x2e || b == 0x7e
}

/// Percent-encodes the UTF-8 bytes of a text.
pub fn encode(s: &str) -> (r: String)
    ensures
        r@ == encoded(vstd::utf8::encode_utf8(s@)),
{
    let bytes = s.as_bytes();
    let mut out = String::new();
    let mut i: usize = 0;
    while i < bytes.len()
        invariant
            i <= bytes@.len(),
            out@ == encoded(bytes@.take(i as int)),
        decreases bytes@.len() - i,
    {
        let b = bytes[i];
        let ghost was = out@;
        proof {
            assert(bytes@.take(i + 1).drop_last() =~= bytes@.take(i as int));
        }
        if is_unreserved(b) {
            out.push(b as char);
        } else {
            out.push('%');
            out.push(hex_digit(b / 16));
            out.push(hex_digit(b % 16));
        }
        proof {
            assert(out@ =~= was + encoded_byte(b));
        }
        i = i + 1;
    }
    proof {
        assert(bytes@.take(i as int) =~= bytes@);
    }
    out
}

pub open spec fn hex_value(c: char) -> Option<u8> {
    if '0' <= c <= '9' {
        Some((c as u32 - 0x30) as u8)
    } else if 'A' <= c <= 'F' {
        Some((c as u32 - 0x41 + 10) as u8)
    } else {
        None
    }
}

/// What percent-encoded text stands for.
pub open spec fn decoded(s: Seq<char>) -> Option<Seq<u8>>
    decreases s.len(),
{
    if s.len() == 0 {
        Some(Seq::empty())
    } else if s.len() >= 3 && s[s.len() - 3] == '%' {
        match (decoded(s.take(s.len() - 3)), hex_value(s[s.len() - 2]), hex_value(s[s.len() - 1])) {
            (Some(d), Some(h), Some(l)) => Some(d.push((16 * h + l) as u8)),
            _ => None,
        }
    } else {
        match decoded(s.drop_last()) {
            Some(d) if s.last() as u32 <= 0xff && unreserved(s.last() as u8) => Some(d.push(s.last() as u8)),
            _ => None,
        }
    }
}

proof fn lemma_tail(b: Seq<u8>)
    ensures
        b.len() > 0 ==> encoded(b).len() > 0 && encoded(b).last() != '%',
        encoded(b).len() >= 2 ==> encoded(b)[encoded(b).len() - 2] != '%',
    decreases b.len(),
{
    if b.len() > 0 {
        lemma_tail(b.drop_last());
        let c = b.last();
        assert(c / 16 < 16 && c % 16 < 16);
        if unreserved(c) {
            assert(c as char != '%');
            if b.drop_last().len() > 0 {
                assert(encoded(b)[encoded(b).len() - 2] == encoded(b.drop_last()).last());
            }
        }
    }
}

/// Percent-encoding can be undone.
pub proof fn law_decoded_of_encoded(b: Seq<u8>)
    ensures
        decoded(encoded(b)) == Some(b),
    decreases b.len(),
{
    if b.len() > 0 {
        let rest = b.drop_last();
        let c = b.last();
        let e = encoded(rest);
        let s = encoded(b);
        law_decoded_of_encoded(rest);
        lemma_tail(rest);
        if unreserved(c) {
            assert(s.drop_last() =~= e);
            if s.len() >= 3 {
                assert(s[s.len() - 3] == e[e.len() - 2]);
            }
            assert((c as char) as u8 == c);
        } else {
            assert(s.take(s.len() - 3) =~= e);
            let (h, l) = (c / 16, c % 16);
            assert(hex_value(hex(h)) == Some(h) && hex_value(hex(l)) == Some(l));
        }
        assert(rest.push(c) =~= b);
    }
}

} // verus!
