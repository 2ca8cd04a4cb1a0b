//! ASCII-only text: every character outside 7-bit ASCII is written as JSON
//! `\u` escapes in upper-case hex: one for a character of the basic plane,
//! and a UTF-16 surrogate pair for one above it, so that a JSON decoder reads
//! the same character back.
use vstd::prelude::*;

verus! {

pub open spec fn hex_digit(d: u32) -> u8 {
    if d < 10 {
        (48 + d) as u8
    } else {
        (55 + d) as u8
    }
}

/// The last `width` hex digits of `n`, most significant first.
pub open spec fn hex_fixed(n: u32, width: nat) -> Seq<u8>
    decreases width,
{
    if width == 0 {
        Seq::empty()
    } else {
        seq![hex_digit((n >> (4 * (width - 1)) as u32) & 15u32)] + hex_fixed(n, (width - 1) as nat)
    }
}

/// `\u` followed by four hex digits of a UTF-16 code unit.
pub open spec fn unit_escape(u: u32) -> Seq<u8> {
    seq![92u8, 117u8] + hex_fixed(u, 4)
}

/// The leading surrogate of a code point above the basic plane.
pub open spec fn high_surrogate(n: u32) -> u32 {
    (0xD800u32 + (((n - 0x10000) as u32) >> 10u32)) as u32
}

/// The trailing surrogate of a code point above the basic plane.
pub open spec fn low_surrogate(n: u32) -> u32 {
    (0xDC00u32 + (((n - 0x10000) as u32) & 0x3FFu32)) as u32
}

/// The JSON escape of a character: its code point where it fits four hex
/// digits, else its two surrogates.
pub open spec fn escape_of(c: char) -> Seq<u8> {
    let n = c as u32;
    if n <= 0xFFFF {
        unit_escape(n)
    } else {
        unit_escape(high_surrogate(n)) + unit_escape(low_surrogate(n))
    }
}

/// What one character becomes: itself where it is ASCII, else its escape.
pub open spec fn ascii_of(c: char) -> Seq<u8> {
    if (c as u32) < 128 {
        seq![c as u8]
    } else {
        escape_of(c)
    }
}

pub open spec fn escaped_all(s: Seq<char>) -> Seq<u8>
    decreases s.len(),
{
    if s.len() == 0 {
        Seq::empty()
    } else {
        escaped_all(s.drop_last()) + escape_of(s.last())
    }
}

pub open spec fn ascii_escaped(s: Seq<char>) -> Seq<u8>
    decreases s.len(),
{
    if s.len() == 0 {
        Seq::empty()
    } else {
        ascii_escaped(s.drop_last()) + ascii_of(s.last())
    }
}

fn hex_digit_exec(d: u32) -> (r: u8)
    requires
        d < 16,
    ensures
        r == hex_digit(d),
{
    if d < 10 {
        (48 + d) as u8
    } else {
        (55 + d) as u8
    }
}

fn push_unit(out: &mut Vec<u8>, n: u32)
    ensures
        final(out)@ == old(out)@ + unit_escape(n),
{
    out.push(92u8);
    out.push(117u8);
    let ghost head = out@;
    let mut k: u32 = 4;
    while k > 0
        invariant
            k <= 4,
            out@ + hex_fixed(n, k as nat) == head + hex_fixed(n, 4),
        decreases k,
    {
        let shift: u32 = 4 * (k - 1);
        let part: u32 = n >> shift;
        let d = part & 15u32;
        assert(part & 15u32 < 16) by (bit_vector);
        let ghost before = out@;
        out.push(hex_digit_exec(d));
        proof {
            assert(hex_fixed(n, k as nat) == seq![hex_digit(d)] + hex_fixed(n, (k - 1) as nat));
            assert(before + hex_fixed(n, k as nat) == out@ + hex_fixed(n, (k - 1) as nat));
        }
        k = k - 1;
    }
    assert(out@ + hex_fixed(n, 0) == out@);
    assert(head == old(out)@ + seq![92u8, 117u8]);
}

fn push_escape(out: &mut Vec<u8>, c: char)
    ensures
        final(out)@ == old(out)@ + escape_of(c),
{
    let n = c as u32;
    if n <= 0xFFFF {
        push_unit(out, n);
    } else {
        let x: u32 = n - 0x10000;
        let hi_part: u32 = x >> 10u32;
        assert(x >> 10u32 <= 0x3FFFFFu32) by (bit_vector);
        let lo_part: u32 = x & 0x3FFu32;
        assert(x & 0x3FFu32 <= 0x3FFu32) by (bit_vector);
        let ghost mid = out@;
        push_unit(out, 0xD800u32 + hi_part);
        push_unit(out, 0xDC00u32 + lo_part);
        assert(out@ == old(out)@ + (unit_escape(high_surrogate(n)) + unit_escape(low_surrogate(n))));
    }
}

/// Escapes every character of `input`, ASCII or not.
pub fn hex_escape(input: &[char]) -> (r: Vec<u8>)
    ensures
        r@ == escaped_all(input@),
{
    let mut out: Vec<u8> = Vec::new();
    let mut i: usize = 0;
    while i < input.len()
        invariant
            i <= input@.len(),
            out@ == escaped_all(input@.take(i as int)),
        decreases input@.len() - i,
    {
        proof {
            assert(input@.take(i + 1).drop_last() == input@.take(i as int));
        }
        push_escape(&mut out, input[i]);
        i = i + 1;
    }
    assert(input@.take(input@.len() as int) == input@);
    out
}

/// Encodes text as ASCII bytes, escaping what ASCII cannot hold.
pub fn encode_ascii(text: &[char]) -> (r: Vec<u8>)
    ensures
        r@ == ascii_escaped(text@),
{
    let mut out: Vec<u8> = Vec::new();
    let mut i: usize = 0;
    while i < text.len()
        invariant
            i <= text@.len(),
            out@ == ascii_escaped(text@.take(i as int)),
        decreases text@.len() - i,
    {
        proof {
            assert(text@.take(i + 1).drop_last() == text@.take(i as int));
        }
        let c = text[i];
        if (c as u32) < 128 {
            out.push(c as u8);
        } else {
            push_escape(&mut out, c);
        }
        i = i + 1;
    }
    assert(text@.take(text@.len() as int) == text@);
    out
}

} // verus!
