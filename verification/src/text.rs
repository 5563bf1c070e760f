//! Numbers and colours as text.

use vstd::prelude::*;

verus! {

/// `String::push` appends one character to the end of the string and changes nothing else.
pub assume_specification[ String::push ](s: &mut String, c: char)
    ensures
        final(s)@ == old(s)@.push(c),
;

/// The character of a decimal digit.
pub open spec fn digit_char(d: nat) -> char {
    (48 + d) as char
}

/// A number in decimal, without leading zeros.
pub open spec fn decimal(n: nat) -> Seq<char>
    decreases n,
{
    if n < 10 {
        seq![digit_char(n)]
    } else {
        decimal(n / 10).push(digit_char(n % 10))
    }
}

/// A number of hundredths in decimal: the whole part, and up to two decimals without trailing
/// zeros.
pub open spec fn hundredths_text(k: int) -> Seq<char> {
    let magnitude: nat = if k < 0 {
        (-k) as nat
    } else {
        k as nat
    };
    let sign: Seq<char> = if k < 0 {
        "-"@
    } else {
        Seq::empty()
    };
    let whole = sign + decimal(magnitude / 100);
    let tenths = (magnitude / 10) % 10;
    let rest = magnitude % 10;
    if tenths == 0 && rest == 0 {
        whole
    } else if rest == 0 {
        whole + "."@ + seq![digit_char(tenths)]
    } else {
        whole + "."@ + seq![digit_char(tenths), digit_char(rest)]
    }
}

/// The character of a lower-case hexadecimal digit.
pub open spec fn hex_char(d: int) -> char {
    if d < 10 {
        (48 + d) as char
    } else {
        (87 + d) as char
    }
}

/// The two hexadecimal digits of a byte.
pub open spec fn hex_byte(b: u8) -> Seq<char> {
    seq![hex_char(b as int / 16), hex_char(b as int % 16)]
}

/// A colour as `#rrggbb`.
pub open spec fn hex_text(r: u8, g: u8, b: u8) -> Seq<char> {
    "#"@ + hex_byte(r) + hex_byte(g) + hex_byte(b)
}

/// The escaped form of one character of an attribute value.
pub open spec fn escaped_char(c: char) -> Seq<char> {
    if c == '&' {
        "&amp;"@
    } else if c == '<' {
        "&lt;"@
    } else if c == '>' {
        "&gt;"@
    } else if c == '"' {
        "&quot;"@
    } else {
        seq![c]
    }
}

/// An attribute value with the characters escaped that are not legal in it.
pub open spec fn escaped(s: Seq<char>) -> Seq<char>
    decreases s.len(),
{
    if s.len() == 0 {
        Seq::empty()
    } else {
        escaped(s.drop_last()) + escaped_char(s.last())
    }
}

/// Append a number in decimal.
pub fn push_decimal(out: &mut String, n: u128)
    ensures
        final(out)@ == old(out)@ + decimal(n as nat),
    decreases n,
{
    let ghost before = out@;
    if n >= 10 {
        push_decimal(out, n / 10);
    }
    let d: u8 = (n % 10) as u8;
    out.push((48 + d) as char);
    assert(out@ =~= before + decimal(n as nat));
}

fn hex_digit(d: u8) -> (c: char)
    requires
        d < 16,
    ensures
        c == hex_char(d as int),
{
    if d < 10 {
        (48 + d) as char
    } else {
        (87 + d) as char
    }
}

/// A colour as `#rrggbb`.
pub fn hex(c: [u8; 3]) -> (s: String)
    ensures
        s@ == hex_text(c[0], c[1], c[2]),
{
    let mut s: String = String::from_str("#");
    let mut i: usize = 0;
    while i < 3
        invariant
            i <= 3,
            i == 0 ==> s@ == "#"@,
            i == 1 ==> s@ == "#"@ + hex_byte(c[0]),
            i == 2 ==> s@ == "#"@ + hex_byte(c[0]) + hex_byte(c[1]),
            i == 3 ==> s@ == hex_text(c[0], c[1], c[2]),
        decreases 3 - i,
    {
        let ghost before = s@;
        s.push(hex_digit(c[i] / 16));
        s.push(hex_digit(c[i] % 16));
        assert(s@ =~= before + hex_byte(c[i as int]));
        i = i + 1;
    }
    s
}

/// Append a coordinate with up to 2 decimals, trimming trailing zeros.
pub fn push_hundredths(out: &mut String, k: i128)
    ensures
        final(out)@ == old(out)@ + hundredths_text(k as int),
{
    let ghost before = out@;
    let magnitude: u128 = if k < 0 {
        out.append("-");
        (-(k + 1)) as u128 + 1
    } else {
        k as u128
    };
    push_decimal(out, magnitude / 100);
    let tenths: u8 = ((magnitude / 10) % 10) as u8;
    let rest: u8 = (magnitude % 10) as u8;
    assert(tenths == 0 && rest == 0 <==> magnitude % 100 == 0);
    if tenths != 0 || rest != 0 {
        out.append(".");
        out.push((48 + tenths) as char);
        if rest != 0 {
            out.push((48 + rest) as char);
        }
    }
    assert(out@ =~= before + hundredths_text(k as int));
}

/// Escape the few characters that aren't legal inside a double-quoted XML
/// attribute value.
pub fn attr_escape(s: &str) -> (out: String)
    ensures
        out@ == escaped(s@),
{
    let mut out: String = String::new();
    assert(s@.take(0).len() == 0);
    for c in it: s.chars()
        invariant
            it.seq() == s@,
            out@ == escaped(s@.take(it.index() as int)),
    {
        let ghost before = out@;
        proof {
            let now = s@.take(it.index() + 1);
            assert(now.drop_last() =~= s@.take(it.index() as int));
            assert(now.last() == c);
        }
        if c == '&' {
            out.append("&amp;");
        } else if c == '<' {
            out.append("&lt;");
        } else if c == '>' {
            out.append("&gt;");
        } else if c == '"' {
            out.append("&quot;");
        } else {
            out.push(c);
        }
        assert(out@ =~= before + escaped_char(c));
    }
    assert(s@.take(s@.len() as int) =~= s@);
    out
}

} // verus!
