//! Text for people: the names and numbers the library's values are shown
//! with.
use vstd::prelude::*;

verus! {

/// `String::push`: claims that the character is appended.
#[verifier::external_body]
pub(crate) fn push_char(s: &mut String, c: char)
    ensures
        final(s)@ == old(s)@.push(c),
{
    s.push(c)
}

/// `String::push_str`: claims that the text is appended.
#[verifier::external_body]
pub(crate) fn push_text(s: &mut String, t: &str)
    ensures
        final(s)@ == old(s)@ + t@,
{
    s.push_str(t)
}

/// What `String::from_utf8_lossy` makes of some bytes: their text, each
/// sequence that is not UTF-8 replaced by U+FFFD.
pub uninterp spec fn lossy_text(b: Seq<u8>) -> Seq<char>;

/// `String::from_utf8_lossy`: claims that the text is `lossy_text` of the
/// bytes, a function of the bytes alone; which text that is, is left
/// unsaid.
#[verifier::external_body]
pub(crate) fn from_utf8_lossy(b: &[u8]) -> (r: String)
    ensures
        r@ == lossy_text(b@),
{
    String::from_utf8_lossy(b).into_owned()
}

/// The digit `d`, below sixteen: `0` to `9`, then `a` to `f`.
pub open spec fn digit_char(d: nat) -> char {
    if d < 10 {
        ((48 + d) as u8) as char
    } else {
        ((87 + d) as u8) as char
    }
}

/// `x` in decimal, without leading zeros.
pub open spec fn decimal_text(x: nat) -> Seq<char>
    decreases x,
{
    if x < 10 {
        seq![digit_char(x)]
    } else {
        decimal_text(x / 10).push(digit_char(x % 10))
    }
}

/// `x` in lowercase hexadecimal, with leading zeros up to `width` digits.
pub open spec fn hex_text(x: nat, width: nat) -> Seq<char>
    decreases x + width,
{
    if x < 16 && width <= 1 {
        seq![digit_char(x)]
    } else {
        hex_text(
            x / 16,
            if width > 0 {
                (width - 1) as nat
            } else {
                0
            },
        ).push(digit_char(x % 16))
    }
}

/// The digit `d`.
pub fn digit(d: u64) -> (r: char)
    requires
        d < 16,
    ensures
        r == digit_char(d as nat),
{
    if d < 10 {
        ((48 + d) as u8) as char
    } else {
        ((87 + d) as u8) as char
    }
}

/// Appends `x` in decimal.
pub fn push_decimal(s: &mut String, x: u64)
    ensures
        final(s)@ == old(s)@ + decimal_text(x as nat),
    decreases x,
{
    if x >= 10 {
        push_decimal(s, x / 10);
    }
    push_char(s, digit(x % 10));
    if x < 10 {
        assert(s@ =~= old(s)@ + decimal_text(x as nat));
    } else {
        assert(s@ =~= old(s)@ + decimal_text(x as nat));
    }
}

/// Appends `x` in lowercase hexadecimal, with leading zeros up to `width`
/// digits.
pub fn push_hex(s: &mut String, x: u64, width: u64)
    ensures
        final(s)@ == old(s)@ + hex_text(x as nat, width as nat),
    decreases x + width,
{
    if x >= 16 || width > 1 {
        let w = if width > 0 {
            width - 1
        } else {
            0
        };
        push_hex(s, x / 16, w);
    }
    push_char(s, digit(x % 16));
    assert(s@ =~= old(s)@ + hex_text(x as nat, width as nat));
}

/// `x` in decimal.
pub fn decimal(x: u64) -> (r: String)
    ensures
        r@ == decimal_text(x as nat),
{
    let mut s = String::new();
    push_decimal(&mut s, x);
    assert(s@ =~= decimal_text(x as nat));
    s
}

/// Each of the bytes in lowercase hexadecimal, two digits each.
pub open spec fn hex_bytes(b: Seq<u8>) -> Seq<char>
    decreases b.len(),
{
    if b.len() == 0 {
        Seq::empty()
    } else {
        hex_bytes(b.drop_last()) + hex_text(b.last() as nat, 2)
    }
}

/// Appends each of the bytes in lowercase hexadecimal, two digits each.
pub fn push_hex_bytes(s: &mut String, b: &[u8])
    ensures
        final(s)@ == old(s)@ + hex_bytes(b@),
{
    let mut i: usize = 0;
    assert(b@.take(0) =~= Seq::<u8>::empty());
    assert(s@ =~= old(s)@ + hex_bytes(b@.take(0)));
    while i < b.len()
        invariant
            i <= b@.len(),
            s@ == old(s)@ + hex_bytes(b@.take(i as int)),
        decreases b.len() - i,
    {
        push_hex(s, b[i] as u64, 2);
        assert(b@.take(i as int + 1).drop_last() =~= b@.take(i as int));
        i = i + 1;
        assert(s@ =~= old(s)@ + hex_bytes(b@.take(i as int)));
    }
    assert(b@.take(i as int) =~= b@);
}

} // verus!
