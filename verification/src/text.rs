//! The one line of text that a map gives of itself: its name, its length in
//! decimal and its structural hash in hexadecimal.
use vstd::prelude::*;

verus! {

/// `String::push` appends the character to the end of the string.
pub assume_specification[ String::push ](text: &mut String, ch: char)
    ensures
        final(text)@ == old(text)@.push(ch),
;

/// `String::push_str` appends the string slice to the end of the string.
pub assume_specification[ String::push_str ](text: &mut String, string: &str)
    ensures
        final(text)@ == old(text)@ + string@,
;

/// The sixteen digits, in lower case.
pub open spec fn digits() -> Seq<char> {
    seq!['0', '1', '2', '3', '4', '5', '6', '7', '8', '9', 'a', 'b', 'c', 'd', 'e', 'f']
}

/// The decimal digits of `n`, without leading zeros.
pub open spec fn decimal(n: nat) -> Seq<char>
    decreases n,
{
    if n < 10 {
        seq![digits()[n as int]]
    } else {
        decimal(n / 10).push(digits()[(n % 10) as int])
    }
}

/// The four bits of `x` that its hexadecimal digit number `i` stands for,
/// the first digit being the highest.
pub open spec fn nibble(x: u64, i: int) -> u64 {
    (x >> ((60 - 4 * i) as u32)) & 0xf
}

/// The sixteen hexadecimal digits of `x`, leading zeros included.
pub open spec fn hexadecimal(x: u64) -> Seq<char> {
    Seq::new(16, |i: int| digits()[nibble(x, i) as int])
}

/// The line for a map of the given name, length and structural hash, as in
/// `ChampMap { len: 3, adhash: 0x00000000000000ff, .. }`.
pub open spec fn debug_text(name: Seq<char>, len: nat, adhash: u64) -> Seq<char> {
    name + " { len: "@ + decimal(len) + ", adhash: 0x"@ + hexadecimal(adhash) + ", .. }"@
}

/// The digit for a number below sixteen.
pub fn digit(d: u8) -> (c: char)
    requires
        d < 16,
    ensures
        c == digits()[d as int],
{
    match d {
        0 => '0',
        1 => '1',
        2 => '2',
        3 => '3',
        4 => '4',
        5 => '5',
        6 => '6',
        7 => '7',
        8 => '8',
        9 => '9',
        10 => 'a',
        11 => 'b',
        12 => 'c',
        13 => 'd',
        14 => 'e',
        _ => 'f',
    }
}

/// Appends the decimal digits of `n`.
pub fn push_decimal(text: &mut String, n: usize)
    ensures
        final(text)@ == old(text)@ + decimal(n as nat),
    decreases n,
{
    if n >= 10 {
        push_decimal(text, n / 10);
    }
    text.push(digit((n % 10) as u8));
    proof {
        assert(final(text)@ =~= old(text)@ + decimal(n as nat));
    }
}

/// Appends the sixteen hexadecimal digits of `x`.
pub fn push_hexadecimal(text: &mut String, x: u64)
    ensures
        final(text)@ == old(text)@ + hexadecimal(x),
{
    let mut i: u32 = 0;
    while i < 16
        invariant
            i <= 16,
            text@ == old(text)@ + hexadecimal(x).take(i as int),
        decreases 16 - i,
    {
        let shift: u32 = 60 - 4 * i;
        let four = (x >> shift) & 0xf;
        assert(four < 16) by (bit_vector)
            requires
                four == (x >> shift) & 0xf,
        ;
        text.push(digit(four as u8));
        proof {
            assert(four == nibble(x, i as int));
            assert(hexadecimal(x).take(i + 1) =~= hexadecimal(x).take(i as int).push(
                digits()[four as int],
            ));
        }
        i += 1;
    }
    proof {
        assert(hexadecimal(x).take(16) =~= hexadecimal(x));
    }
}

/// Writes the line for a map of the given name, length and structural hash.
pub fn describe(name: &str, len: usize, adhash: u64) -> (text: String)
    ensures
        text@ == debug_text(name@, len as nat, adhash),
{
    let mut text = String::new();
    text.push_str(name);
    text.push_str(" { len: ");
    push_decimal(&mut text, len);
    text.push_str(", adhash: 0x");
    push_hexadecimal(&mut text, adhash);
    text.push_str(", .. }");
    proof {
        assert(text@ =~= debug_text(name@, len as nat, adhash));
    }
    text
}

} // verus!
