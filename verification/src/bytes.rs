//! Small helpers that build byte strings.

use vstd::prelude::*;
use vstd::string::StringSliceAdditionalSpecFns;
use crate::integer::radix_digits;

verus! {

/// A run of `n` zero digits.
pub open spec fn zeros(n: nat) -> Seq<u8> {
    Seq::new(n, |i: int| 48u8)
}

/// A byte with a lower-case letter of ASCII turned into its capital.
pub open spec fn upper(c: u8) -> u8 {
    if 97 <= c <= 122 {
        (c - 32) as u8
    } else {
        c
    }
}

/// A text with its lower-case letters of ASCII turned into capitals.
pub open spec fn uppercase(text: Seq<u8>) -> Seq<u8> {
    text.map_values(|c: u8| upper(c))
}

/// The UTF-8 encoding of the character whose code point is the byte.
pub open spec fn char_utf8(c: u8) -> Seq<u8> {
    if c < 128 {
        seq![c]
    } else {
        seq![(192 + c / 64) as u8, (128 + c % 64) as u8]
    }
}

/// Appends a run of `n` zero digits.
pub fn push_zeros(out: &mut Vec<u8>, n: usize)
    ensures
        final(out)@ == old(out)@ + zeros(n as nat),
{
    let mut i: usize = 0;
    while i < n
        invariant
            i <= n,
            out@ == old(out)@ + zeros(i as nat),
        decreases n - i,
    {
        out.push(48);
        i += 1;
        assert(out@ =~= old(out)@ + zeros(i as nat));
    }
    assert(out@ =~= old(out)@ + zeros(n as nat));
}

/// Appends all of `text`.
pub fn push_all(out: &mut Vec<u8>, text: &Vec<u8>)
    ensures
        final(out)@ == old(out)@ + text@,
{
    let mut i: usize = 0;
    while i < text.len()
        invariant
            i <= text.len(),
            out@ == old(out)@ + text@.subrange(0, i as int),
        decreases text.len() - i,
    {
        out.push(text[i]);
        i += 1;
        assert(out@ =~= old(out)@ + text@.subrange(0, i as int));
    }
    assert(text@.subrange(0, text.len() as int) =~= text@);
}

/// Appends the bytes of a string.
pub fn push_text(out: &mut Vec<u8>, text: &str)
    ensures
        final(out)@ == old(out)@ + text.spec_bytes(),
{
    let bytes = text.as_bytes();
    let mut i: usize = 0;
    while i < bytes.len()
        invariant
            bytes@ == text.spec_bytes(),
            i <= bytes.len(),
            out@ == old(out)@ + bytes@.subrange(0, i as int),
        decreases bytes.len() - i,
    {
        out.push(bytes[i]);
        i += 1;
        assert(out@ =~= old(out)@ + bytes@.subrange(0, i as int));
    }
    assert(bytes@.subrange(0, bytes.len() as int) =~= bytes@);
}

/// Appends `text` with its lower-case letters turned into capitals.
pub fn push_uppercase(out: &mut Vec<u8>, text: &Vec<u8>)
    ensures
        final(out)@ == old(out)@ + uppercase(text@),
{
    let mut i: usize = 0;
    while i < text.len()
        invariant
            i <= text.len(),
            out@ == old(out)@ + uppercase(text@.subrange(0, i as int)),
        decreases text.len() - i,
    {
        let c = text[i];
        out.push(
            if 97 <= c && c <= 122 {
                c - 32
            } else {
                c
            },
        );
        i += 1;
        assert(out@ =~= old(out)@ + uppercase(text@.subrange(0, i as int)));
    }
    assert(text@.subrange(0, text.len() as int) =~= text@);
}

/// Appends the character whose code point is the byte, in UTF-8.
pub fn push_char(out: &mut Vec<u8>, c: u8)
    ensures
        final(out)@ == old(out)@ + char_utf8(c),
{
    if c < 128 {
        out.push(c);
    } else {
        out.push(192 + c / 64);
        out.push(128 + c % 64);
    }
    assert(out@ =~= old(out)@ + char_utf8(c));
}

/// Appends the byte's value in octal.
pub fn push_octal(out: &mut Vec<u8>, c: u8)
    ensures
        final(out)@ == old(out)@ + radix_digits(c as nat, 8),
{
    let ghost n = c as nat;
    if c >= 64 {
        out.push(48 + c / 64);
    }
    if c >= 8 {
        out.push(48 + (c / 8) % 8);
    }
    out.push(48 + c % 8);
    proof {
        let d2 = (c / 64) as nat;
        let d1 = (c / 8) as nat;
        assert(radix_digits(d2, 8) =~= seq![(48 + d2) as u8]);
        if c >= 64 {
            assert(radix_digits(d1, 8) =~= radix_digits(d2, 8).push((48 + d1 % 8) as u8));
        } else {
            assert(radix_digits(d1, 8) =~= seq![(48 + d1) as u8]);
        }
        if c >= 8 {
            assert(radix_digits(n, 8) =~= radix_digits(d1, 8).push((48 + n % 8) as u8));
        } else {
            assert(radix_digits(n, 8) =~= seq![(48 + n) as u8]);
        }
        assert(out@ =~= old(out)@ + radix_digits(n, 8));
    }
}

} // verus!
