//! Building text: decimal numbers, version numbers and big-endian bytes.

use vstd::prelude::*;
use vstd::string::*;

verus! {

/// The decimal digit of a value below ten.
pub open spec fn decimal_digit(n: int) -> char {
    ('0' as int + n) as char
}

/// A number in decimal, without leading zeros.
pub open spec fn decimal_text(n: nat) -> Seq<char>
    decreases n,
{
    if n < 10 {
        seq![decimal_digit(n as int)]
    } else {
        decimal_text(n / 10).push(decimal_digit((n % 10) as int))
    }
}

/// Appends one decimal digit.
fn push_digit(text: &mut String, digit: u64)
    requires
        digit < 10,
    ensures
        final(text)@ == old(text)@.push(decimal_digit(digit as int)),
{
    proof {
        reveal_strlit("0");
        reveal_strlit("1");
        reveal_strlit("2");
        reveal_strlit("3");
        reveal_strlit("4");
        reveal_strlit("5");
        reveal_strlit("6");
        reveal_strlit("7");
        reveal_strlit("8");
        reveal_strlit("9");
    }
    let piece = match digit {
        0 => "0",
        1 => "1",
        2 => "2",
        3 => "3",
        4 => "4",
        5 => "5",
        6 => "6",
        7 => "7",
        8 => "8",
        _ => "9",
    };
    assert(piece@ =~= seq![decimal_digit(digit as int)]);
    text.append(piece);
    assert(text@ =~= old(text)@.push(decimal_digit(digit as int)));
}

/// Appends a number in decimal.
pub fn push_decimal(text: &mut String, n: u64)
    ensures
        final(text)@ == old(text)@ + decimal_text(n as nat),
    decreases n,
{
    if n < 10 {
        push_digit(text, n);
        assert(text@ =~= old(text)@ + decimal_text(n as nat));
    } else {
        push_decimal(text, n / 10);
        push_digit(text, n % 10);
        assert(text@ =~= old(text)@ + decimal_text(n as nat));
    }
}

/// A version number as text: its three parts in decimal, joined by dots.
pub open spec fn version_text(v: [u8; 3]) -> Seq<char> {
    decimal_text(v[0] as nat) + "."@ + decimal_text(v[1] as nat) + "."@ + decimal_text(v[2] as nat)
}

/// Appends a version number.
pub fn push_version(text: &mut String, v: &[u8; 3])
    ensures
        final(text)@ == old(text)@ + version_text(*v),
{
    push_decimal(text, v[0] as u64);
    text.append(".");
    push_decimal(text, v[1] as u64);
    text.append(".");
    push_decimal(text, v[2] as u64);
    assert(text@ =~= old(text)@ + version_text(*v));
}

/// Whether one version comes strictly before another: the first part that
/// differs decides.
pub open spec fn version_before(a: [u8; 3], b: [u8; 3]) -> bool {
    ||| a[0] < b[0]
    ||| a[0] == b[0] && a[1] < b[1]
    ||| a[0] == b[0] && a[1] == b[1] && a[2] < b[2]
}

/// Whether a version lies between two others, both included.
pub open spec fn version_within(v: [u8; 3], min: [u8; 3], max: [u8; 3]) -> bool {
    !version_before(v, min) && !version_before(max, v)
}

/// Tells whether one version comes strictly before another.
pub fn is_version_before(a: &[u8; 3], b: &[u8; 3]) -> (before: bool)
    ensures
        before == version_before(*a, *b),
{
    if a[0] != b[0] {
        a[0] < b[0]
    } else if a[1] != b[1] {
        a[1] < b[1]
    } else {
        a[2] < b[2]
    }
}

/// The four bytes of a 32-bit number, most significant first.
pub open spec fn u32_be(n: u32) -> Seq<u8> {
    seq![
        (n / 0x100_0000) as u8,
        (n / 0x1_0000 % 0x100) as u8,
        (n / 0x100 % 0x100) as u8,
        (n % 0x100) as u8,
    ]
}

/// The 32-bit number that four bytes stand for, most significant first.
pub open spec fn be_u32(a: u8, b: u8, c: u8, d: u8) -> u32 {
    (a * 0x100_0000 + b * 0x1_0000 + c * 0x100 + d) as u32
}

/// The four bytes of a 32-bit number, most significant first.
pub fn u32_to_be(n: u32) -> (bytes: [u8; 4])
    ensures
        bytes@ == u32_be(n),
{
    let bytes = [
        (n / 0x100_0000) as u8,
        (n / 0x1_0000 % 0x100) as u8,
        (n / 0x100 % 0x100) as u8,
        (n % 0x100) as u8,
    ];
    assert(bytes@ =~= u32_be(n));
    bytes
}

/// The 32-bit number that four bytes stand for, most significant first.
pub fn u32_from_be(a: u8, b: u8, c: u8, d: u8) -> (n: u32)
    ensures
        n == be_u32(a, b, c, d),
{
    a as u32 * 0x100_0000 + b as u32 * 0x1_0000 + c as u32 * 0x100 + d as u32
}

/// Bytes, most significant first, stand for the number that place values in base 256
/// make of them, and the bytes of a number stand for that number.
pub proof fn law_u32_be_value(a: u8, b: u8, c: u8, d: u8, n: u32)
    ensures
        be_u32(a, b, c, d) == 16_777_216 * a + 65_536 * b + 256 * c + d,
        u32_be(n).len() == 4,
        16_777_216 * u32_be(n)[0] + 65_536 * u32_be(n)[1] + 256 * u32_be(n)[2] + u32_be(n)[3] == n,
{
}

/// The number that decimal digits stand for.
pub open spec fn decimal_value(text: Seq<char>) -> int
    decreases text.len(),
{
    if text.len() == 0 {
        0
    } else {
        10 * decimal_value(text.drop_last()) + (text.last() as int - '0' as int)
    }
}

/// A number in decimal is made of digits alone, has no leading zero but where it is
/// zero, and its digits stand for the number.
pub proof fn law_decimal_value(n: nat)
    ensures
        decimal_text(n).len() > 0,
        forall|i: int| 0 <= i < decimal_text(n).len() ==> '0' <= #[trigger] decimal_text(n)[i] <= '9',
        n > 0 ==> decimal_text(n)[0] != '0',
        n == 0 ==> decimal_text(n) == seq!['0'],
        decimal_value(decimal_text(n)) == n,
    decreases n,
{
    reveal_with_fuel(decimal_value, 2);
    if n < 10 {
        assert(decimal_text(n).drop_last() =~= Seq::empty());
    } else {
        law_decimal_value(n / 10);
        let rest = decimal_text(n / 10);
        assert(decimal_text(n).drop_last() =~= rest);
        assert(decimal_text(n)[0] == rest[0]);
        assert forall|i: int| 0 <= i < decimal_text(n).len() implies '0' <= #[trigger] decimal_text(
            n,
        )[i] <= '9' by {
            if i < rest.len() {
                assert(rest[i] == decimal_text(n)[i]);
            }
        }
    }
}

/// A version as one number, by which versions are ordered.
pub open spec fn version_number(v: [u8; 3]) -> int {
    65_536 * v[0] + 256 * v[1] + v[2]
}

/// Versions are ordered as the numbers that their parts make up, most significant
/// first; a version lies in a range exactly if its number does, both ends included.
pub proof fn law_version_order(v: [u8; 3], min: [u8; 3], max: [u8; 3])
    ensures
        version_before(v, max) <==> version_number(v) < version_number(max),
        version_within(v, min, max) <==> version_number(min) <= version_number(v)
            <= version_number(max),
{
}

/// The text of a version is its three parts in decimal with a dot between them.
pub proof fn law_version_text(v: [u8; 3])
    ensures
        version_text(v) == decimal_text(v[0] as nat).push('.') + decimal_text(v[1] as nat).push('.')
            + decimal_text(v[2] as nat),
{
    reveal_strlit(".");
    assert(version_text(v) =~= decimal_text(v[0] as nat).push('.') + decimal_text(
        v[1] as nat,
    ).push('.') + decimal_text(v[2] as nat));
}

/// Big-endian bytes read back as the number they were made of.
pub proof fn law_u32_be_roundtrip(n: u32)
    ensures
        be_u32(u32_be(n)[0], u32_be(n)[1], u32_be(n)[2], u32_be(n)[3]) == n,
{
}

} // verus!
