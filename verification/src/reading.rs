//! What the text of numbers and colours reads back as.

use vstd::prelude::*;

use crate::text::{
    decimal, digit_char, escaped, escaped_char, hex_byte, hex_char, hex_text, hundredths_text,
};

verus! {

/// The number that a string of decimal digits stands for.
pub open spec fn value(s: Seq<char>) -> int
    decreases s.len(),
{
    if s.len() == 0 {
        0
    } else {
        10 * value(s.drop_last()) + (s.last() as int - '0' as int)
    }
}

/// All characters are decimal digits.
pub open spec fn all_digits(s: Seq<char>) -> bool {
    forall|i: int| 0 <= i < s.len() ==> '0' <= #[trigger] s[i] && s[i] <= '9'
}

/// The decimal text of a number reads back as that number: it consists of digits, has no leading
/// zero unless it is a single digit, and stands for the number.
pub proof fn law_decimals_read_back(n: nat)
    ensures
        value(decimal(n)) == n,
        all_digits(decimal(n)),
        decimal(n).len() > 0,
        decimal(n)[0] == '0' ==> n == 0 && decimal(n).len() == 1,
    decreases n,
{
    let t = decimal(n);
    let d = digit_char(n % 10);
    assert(d as int == 48 + n % 10);
    if n >= 10 {
        law_decimals_read_back(n / 10);
        let head = decimal(n / 10);
        assert(t == head.push(d));
        assert(t.drop_last() =~= head);
        assert(t.last() == d);
        assert forall|i: int| 0 <= i < t.len() implies '0' <= #[trigger] t[i] && t[i] <= '9' by {
            if i < head.len() {
                assert(t[i] == head[i]);
            }
        }
        assert(t[0] == head[0]);
    } else {
        assert(t == seq![digit_char(n)]);
        assert(t.drop_last().len() == 0);
        assert(t.last() == digit_char(n));
        assert(value(t.drop_last()) == 0);
    }
}

/// The digits of a number as one number, whatever else stands between them.
pub open spec fn mantissa(t: Seq<char>) -> int
    decreases t.len(),
{
    if t.len() == 0 {
        0
    } else if '0' <= t.last() && t.last() <= '9' {
        10 * mantissa(t.drop_last()) + (t.last() as int - '0' as int)
    } else {
        mantissa(t.drop_last())
    }
}

/// How many characters follow the decimal point, if there is one.
pub open spec fn places(t: Seq<char>) -> int
    decreases t.len(),
{
    if !t.contains('.') || t.last() == '.' {
        0
    } else {
        1 + places(t.drop_last())
    }
}

/// The hundredths that the text of a coordinate stands for.
pub open spec fn hundredths_of(t: Seq<char>) -> int {
    let unit: int = if places(t) == 0 {
        100
    } else if places(t) == 1 {
        10
    } else {
        1
    };
    if t.len() > 0 && t[0] == '-' {
        -(unit * mantissa(t))
    } else {
        unit * mantissa(t)
    }
}

proof fn lemma_mantissa_push(t: Seq<char>, c: char)
    ensures
        mantissa(t.push(c)) == if '0' <= c && c <= '9' {
            10 * mantissa(t) + (c as int - '0' as int)
        } else {
            mantissa(t)
        },
{
    assert(t.push(c).drop_last() =~= t);
}

/// A sign in front leaves the digits what they are.
proof fn lemma_mantissa(sign: Seq<char>, s: Seq<char>)
    requires
        all_digits(s),
        sign.len() == 0 || sign == seq!['-'],
    ensures
        mantissa(sign + s) == value(s),
        !(sign + s).contains('.'),
        places(sign + s) == 0,
    decreases s.len(),
{
    let t = sign + s;
    if s.len() == 0 {
        assert(t =~= sign);
        if sign.len() > 0 {
            lemma_mantissa_push(Seq::empty(), '-');
            assert(sign =~= Seq::<char>::empty().push('-'));
        }
    } else {
        assert(t.drop_last() =~= sign + s.drop_last());
        assert(t.last() == s.last());
        assert(all_digits(s.drop_last())) by {
            assert forall|i: int| 0 <= i < s.drop_last().len() implies '0' <= #[trigger] s.drop_last()[i]
                && s.drop_last()[i] <= '9' by {
                assert(s.drop_last()[i] == s[i]);
            }
        }
        assert('0' <= s[s.len() - 1] && s[s.len() - 1] <= '9');
        lemma_mantissa(sign, s.drop_last());
        assert forall|i: int| 0 <= i < t.len() implies t[i] != '.' by {
            if i < t.len() - 1 {
                assert(t.drop_last()[i] == t[i]);
                assert(t.drop_last().contains(t.drop_last()[i]));
            }
        }
    }
}

proof fn lemma_places_push(t: Seq<char>, c: char)
    ensures
        c == '.' ==> places(t.push(c)) == 0,
        c != '.' && t.contains('.') ==> places(t.push(c)) == 1 + places(t),
        t.contains('.') || c == '.' ==> t.push(c).contains('.'),
{
    let u = t.push(c);
    assert(u.drop_last() =~= t);
    assert(u[t.len() as int] == c);
    if t.contains('.') {
        let i = choose|i: int| 0 <= i < t.len() && t[i] == '.';
        assert(u[i] == '.');
    }
}

/// A coordinate reads back as itself: with the digits before the point counted as wholes, those
/// behind it as tenths and hundredths, and the sign in front, its text stands for it.
pub proof fn law_coordinates_read_back(k: int)
    ensures
        hundredths_of(hundredths_text(k)) == k,
{
    let magnitude: nat = if k < 0 {
        (-k) as nat
    } else {
        k as nat
    };
    let sign: Seq<char> = if k < 0 {
        "-"@
    } else {
        Seq::empty()
    };
    reveal_strlit("-");
    reveal_strlit(".");
    assert("-"@ =~= seq!['-']);
    assert("."@ =~= seq!['.']);
    let digits = decimal(magnitude / 100);
    law_decimals_read_back(magnitude / 100);
    lemma_mantissa(sign, digits);
    let whole = sign + digits;
    let tenths = (magnitude / 10) % 10;
    let rest = magnitude % 10;
    let (c, d) = (digit_char(tenths), digit_char(rest));
    assert(c as int == 48 + tenths);
    assert(d as int == 48 + rest);
    let pointed = whole.push('.');
    lemma_mantissa_push(whole, '.');
    lemma_places_push(whole, '.');
    lemma_mantissa_push(pointed, c);
    lemma_places_push(pointed, c);
    lemma_mantissa_push(pointed.push(c), d);
    lemma_places_push(pointed.push(c), d);
    assert(whole + "."@ + seq![c] =~= pointed.push(c));
    assert(whole + "."@ + seq![c, d] =~= pointed.push(c).push(d));
    assert(whole[0] == '-' <==> k < 0) by {
        if k >= 0 {
            assert(whole[0] == digits[0]);
        }
    }
    let t = hundredths_text(k);
    assert(t[0] == whole[0]);
}

/// What a lower-case hexadecimal digit stands for.
pub open spec fn nibble(c: char) -> int {
    if '0' <= c && c <= '9' {
        c as int - '0' as int
    } else if 'a' <= c && c <= 'f' {
        10 + (c as int - 'a' as int)
    } else {
        -1
    }
}

/// The byte that the two hexadecimal digits at place `i` of a text stand for.
pub open spec fn byte_at(t: Seq<char>, i: int) -> int {
    16 * nibble(t[i]) + nibble(t[i + 1])
}

proof fn lemma_nibble(d: int)
    requires
        0 <= d < 16,
    ensures
        nibble(hex_char(d)) == d,
{
}

/// The text of a colour reads back as the colour: a hash sign and two hexadecimal digits for each
/// of red, green and blue, in this order.
pub proof fn law_colors_read_back(r: u8, g: u8, b: u8)
    ensures
        ({
            let t = hex_text(r, g, b);
            &&& t.len() == 7
            &&& t[0] == '#'
            &&& forall|i: int| 1 <= i < 7 ==> nibble(#[trigger] t[i]) >= 0
            &&& byte_at(t, 1) == r
            &&& byte_at(t, 3) == g
            &&& byte_at(t, 5) == b
        }),
{
    reveal_strlit("#");
    let t = hex_text(r, g, b);
    lemma_nibble(r as int / 16);
    lemma_nibble(r as int % 16);
    lemma_nibble(g as int / 16);
    lemma_nibble(g as int % 16);
    lemma_nibble(b as int / 16);
    lemma_nibble(b as int % 16);
    assert(t =~= seq!['#'] + hex_byte(r) + hex_byte(g) + hex_byte(b));
    assert(t[1] == hex_byte(r)[0] && t[2] == hex_byte(r)[1]);
    assert(t[3] == hex_byte(g)[0] && t[4] == hex_byte(g)[1]);
    assert(t[5] == hex_byte(b)[0] && t[6] == hex_byte(b)[1]);
    assert forall|i: int| 1 <= i < 7 implies nibble(#[trigger] t[i]) >= 0 by {
        assert(i == 1 || i == 2 || i == 3 || i == 4 || i == 5 || i == 6);
    }
}

/// What a reader of XML makes of an attribute value: the four escapes stand for their
/// characters, everything else for itself.
pub open spec fn unescaped(t: Seq<char>) -> Seq<char>
    decreases t.len(),
{
    if t.len() == 0 {
        Seq::empty()
    } else if seq!['&', 'a', 'm', 'p', ';'].is_prefix_of(t) {
        seq!['&'] + unescaped(t.skip(5))
    } else if seq!['&', 'l', 't', ';'].is_prefix_of(t) {
        seq!['<'] + unescaped(t.skip(4))
    } else if seq!['&', 'g', 't', ';'].is_prefix_of(t) {
        seq!['>'] + unescaped(t.skip(4))
    } else if seq!['&', 'q', 'u', 'o', 't', ';'].is_prefix_of(t) {
        seq!['"'] + unescaped(t.skip(6))
    } else {
        seq![t[0]] + unescaped(t.skip(1))
    }
}

/// Escaping goes from the front as well as from the back.
proof fn lemma_escaped_front(s: Seq<char>)
    requires
        s.len() > 0,
    ensures
        escaped(s) == escaped_char(s[0]) + escaped(s.skip(1)),
    decreases s.len(),
{
    let rest = s.skip(1);
    if s.len() == 1 {
        assert(escaped(s.drop_last()) =~= Seq::<char>::empty());
        assert(escaped(rest) =~= Seq::<char>::empty());
        assert(escaped(s) =~= escaped_char(s[0]) + escaped(rest));
    } else {
        lemma_escaped_front(s.drop_last());
        assert(rest.drop_last() =~= s.drop_last().skip(1));
        assert(rest.last() == s.last());
        assert(escaped(s) =~= escaped_char(s[0]) + escaped(rest));
    }
}

proof fn lemma_unescaped_char(c: char, u: Seq<char>)
    ensures
        unescaped(escaped_char(c) + u) == seq![c] + unescaped(u),
{
    reveal_strlit("&amp;");
    reveal_strlit("&lt;");
    reveal_strlit("&gt;");
    reveal_strlit("&quot;");
    let e = escaped_char(c);
    let t = e + u;
    assert(t.skip(e.len() as int) =~= u);
    assert(t[0] == e[0]);
    if c == '&' {
        assert(seq!['&', 'a', 'm', 'p', ';'].is_prefix_of(t));
    } else if c == '<' {
        assert(t[1] == 'l');
        assert(!seq!['&', 'a', 'm', 'p', ';'].is_prefix_of(t)) by {
            assert(seq!['&', 'a', 'm', 'p', ';'][1] == 'a');
        }
        assert(seq!['&', 'l', 't', ';'].is_prefix_of(t));
    } else if c == '>' {
        assert(t[1] == 'g');
        assert(!seq!['&', 'a', 'm', 'p', ';'].is_prefix_of(t)) by {
            assert(seq!['&', 'a', 'm', 'p', ';'][1] == 'a');
        }
        assert(!seq!['&', 'l', 't', ';'].is_prefix_of(t)) by {
            assert(seq!['&', 'l', 't', ';'][1] == 'l');
        }
        assert(seq!['&', 'g', 't', ';'].is_prefix_of(t));
    } else if c == '"' {
        assert(t[1] == 'q');
        assert(!seq!['&', 'a', 'm', 'p', ';'].is_prefix_of(t)) by {
            assert(seq!['&', 'a', 'm', 'p', ';'][1] == 'a');
        }
        assert(!seq!['&', 'l', 't', ';'].is_prefix_of(t)) by {
            assert(seq!['&', 'l', 't', ';'][1] == 'l');
        }
        assert(!seq!['&', 'g', 't', ';'].is_prefix_of(t)) by {
            assert(seq!['&', 'g', 't', ';'][1] == 'g');
        }
        assert(seq!['&', 'q', 'u', 'o', 't', ';'].is_prefix_of(t));
    } else {
        assert(t[0] == c);
        assert(seq!['&', 'a', 'm', 'p', ';'][0] == '&');
        assert(seq!['&', 'l', 't', ';'][0] == '&');
        assert(seq!['&', 'g', 't', ';'][0] == '&');
        assert(seq!['&', 'q', 'u', 'o', 't', ';'][0] == '&');
    }
}

/// An escaped text reads back as the text.
pub proof fn law_escaped_text_reads_back(s: Seq<char>)
    ensures
        unescaped(escaped(s)) == s,
    decreases s.len(),
{
    if s.len() > 0 {
        lemma_escaped_front(s);
        lemma_unescaped_char(s[0], escaped(s.skip(1)));
        law_escaped_text_reads_back(s.skip(1));
        assert(s =~= seq![s[0]] + s.skip(1));
    } else {
        assert(s =~= Seq::<char>::empty());
    }
}

} // verus!
