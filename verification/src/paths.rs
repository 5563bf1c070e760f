//! What path data reads back as.

use vstd::prelude::*;

use crate::reading::{hundredths_of, law_coordinates_read_back, law_decimals_read_back};
use crate::contour::Pt;
use crate::svg::{
    coord_text, corner_point, point_text, region_text, seg_text, segs_text, subpath_text,
    subpaths_text, Ptf, Region, Seg, Subpath,
};
use crate::text::{decimal, digit_char, hundredths_text};
use crate::trace::is_polygon;

verus! {

/// A command of path data: its letter, and the text of its arguments.
pub type Command = (char, Seq<char>);

/// The character is the letter of a command.
pub open spec fn is_command(c: char) -> bool {
    'A' <= c && c <= 'Z'
}

/// The commands of path data: each goes from its letter to the next one.
pub open spec fn commands(t: Seq<char>) -> Seq<Command>
    decreases t.len(),
{
    if t.len() == 0 {
        Seq::empty()
    } else {
        let before = commands(t.drop_last());
        if is_command(t.last()) {
            before.push((t.last(), Seq::empty()))
        } else if before.len() == 0 {
            before
        } else {
            before.drop_last().push((before.last().0, before.last().1.push(t.last())))
        }
    }
}

/// The words of a text, with a space between each two.
pub open spec fn words(t: Seq<char>) -> Seq<Seq<char>>
    decreases t.len(),
{
    if t.len() == 0 {
        seq![Seq::empty()]
    } else {
        let before = words(t.drop_last());
        if t.last() == ' ' {
            before.push(Seq::empty())
        } else {
            before.drop_last().push(before.last().push(t.last()))
        }
    }
}

/// The numbers in a text, in hundredths.
pub open spec fn numbers(t: Seq<char>) -> Seq<int> {
    words(t).map_values(|w: Seq<char>| hundredths_of(w))
}

/// The coordinates of a point, across and then down.
pub open spec fn coordinates(p: Ptf) -> Seq<int> {
    seq![p.0.hundredths as int, p.1.hundredths as int]
}

/// The command is that of a segment: a line to a point, or a curve by two points to a third.
pub open spec fn is_seg(c: Command, seg: Seg) -> bool {
    match seg {
        Seg::Line(p) => c.0 == 'L' && numbers(c.1) == coordinates(p),
        Seg::Cubic(a, b, e) => c.0 == 'C' && numbers(c.1) == coordinates(a) + coordinates(b)
            + coordinates(e),
    }
}

/// The commands draw a subpath: a move to its start, its segments one after the other, and the
/// way back.
pub open spec fn draws(cs: Seq<Command>, sp: Subpath) -> bool {
    let n = sp.segs@.len() as int;
    &&& cs.len() == n + 2
    &&& cs[0].0 == 'M' && numbers(cs[0].1) == coordinates(sp.start)
    &&& forall|i: int| 0 <= i < n ==> is_seg(cs[i + 1], #[trigger] sp.segs@[i])
    &&& cs[n + 1] == ('Z', Seq::<char>::empty())
}

/// Text without letters belongs to the command before it.
proof fn lemma_arguments(t: Seq<char>, u: Seq<char>)
    requires
        commands(t).len() > 0,
        forall|i: int| 0 <= i < u.len() ==> !is_command(#[trigger] u[i]),
    ensures
        commands(t + u) == commands(t).drop_last().push(
            (commands(t).last().0, commands(t).last().1 + u),
        ),
    decreases u.len(),
{
    let all = t + u;
    let last = commands(t).last();
    if u.len() == 0 {
        assert(all =~= t);
        assert(last.1 + u =~= last.1);
        assert(commands(t) =~= commands(t).drop_last().push((last.0, last.1 + u)));
    } else {
        let rest = u.drop_last();
        assert(all.drop_last() =~= t + rest);
        assert(all.last() == u[u.len() - 1]);
        assert forall|i: int| 0 <= i < rest.len() implies !is_command(#[trigger] rest[i]) by {
            assert(rest[i] == u[i]);
        }
        lemma_arguments(t, rest);
        let before = commands(t + rest);
        assert((last.1 + rest).push(u.last()) =~= last.1 + u);
        assert(before.drop_last() =~= commands(t).drop_last());
    }
}

/// Text that begins with a letter begins a command of its own.
proof fn lemma_next_command(t: Seq<char>, u: Seq<char>)
    requires
        u.len() == 0 || is_command(u[0]),
    ensures
        commands(t + u) == commands(t) + commands(u),
        u.len() > 0 ==> commands(u).len() > 0,
    decreases u.len(),
{
    let all = t + u;
    if u.len() == 0 {
        assert(all =~= t);
        assert(commands(t) + commands(u) =~= commands(t));
    } else {
        let rest = u.drop_last();
        assert(all.drop_last() =~= t + rest);
        assert(all.last() == u.last());
        if rest.len() > 0 {
            assert(rest[0] == u[0]);
        } else {
            assert(u.last() == u[0]);
        }
        lemma_next_command(t, rest);
        let (a, b) = (commands(t), commands(rest));
        if is_command(u.last()) {
            assert(commands(all) =~= a + commands(u));
        } else {
            assert((a + b).last() == b.last());
            assert((a + b).drop_last() =~= a + b.drop_last());
            assert(commands(all) =~= a + commands(u));
        }
    }
}

/// One command by itself.
proof fn lemma_single(letter: char, t: Seq<char>, u: Seq<char>)
    requires
        is_command(letter),
        t =~= seq![letter],
        forall|i: int| 0 <= i < u.len() ==> !is_command(#[trigger] u[i]),
    ensures
        commands(t + u) =~= seq![(letter, u)],
{
    assert(t.drop_last().len() == 0);
    assert(commands(t.drop_last()) =~= Seq::<Command>::empty());
    assert(t.last() == seq![letter][0]);
    assert(commands(t) =~= seq![(letter, Seq::<char>::empty())]);
    lemma_arguments(t, u);
    assert(Seq::<char>::empty() + u =~= u);
}

/// Text without spaces belongs to the word before it.
proof fn lemma_word(t: Seq<char>, u: Seq<char>)
    requires
        forall|i: int| 0 <= i < u.len() ==> #[trigger] u[i] != ' ',
    ensures
        words(t).len() > 0,
        words(t + u) == words(t).drop_last().push(words(t).last() + u),
    decreases u.len(),
{
    lemma_some_word(t);
    let all = t + u;
    let last = words(t).last();
    if u.len() == 0 {
        assert(all =~= t);
        assert(last + u =~= last);
        assert(words(t) =~= words(t).drop_last().push(last + u));
    } else {
        let rest = u.drop_last();
        assert(all.drop_last() =~= t + rest);
        assert(all.last() == u[u.len() - 1]);
        assert forall|i: int| 0 <= i < rest.len() implies #[trigger] rest[i] != ' ' by {
            assert(rest[i] == u[i]);
        }
        lemma_word(t, rest);
        assert((last + rest).push(u.last()) =~= last + u);
        assert(words(t + rest).drop_last() =~= words(t).drop_last());
    }
}

proof fn lemma_some_word(t: Seq<char>)
    ensures
        words(t).len() > 0,
    decreases t.len(),
{
    if t.len() > 0 {
        lemma_some_word(t.drop_last());
    }
}

/// A word behind a space is a word of its own.
proof fn lemma_next_word(t: Seq<char>, u: Seq<char>)
    requires
        forall|i: int| 0 <= i < u.len() ==> #[trigger] u[i] != ' ',
    ensures
        words(t + " "@ + u) == words(t).push(u),
{
    reveal_strlit(" ");
    let spaced = t + " "@;
    assert(spaced.drop_last() =~= t);
    assert(spaced.last() == ' ');
    assert(words(spaced) == words(t).push(Seq::<char>::empty()));
    lemma_word(spaced, u);
    assert(words(spaced).drop_last() =~= words(t));
    assert(Seq::<char>::empty() + u =~= u);
}

/// The character can stand in a number.
spec fn in_number(c: char) -> bool {
    ('0' <= c && c <= '9') || c == '-' || c == '.'
}

proof fn lemma_number_chars(k: int)
    ensures
        forall|i: int| 0 <= i < hundredths_text(k).len() ==> in_number(#[trigger] hundredths_text(k)[i]),
{
    let magnitude: nat = if k < 0 {
        (-k) as nat
    } else {
        k as nat
    };
    let sign: Seq<char> = if k < 0 {
        "-"@
    } else {
        Seq::empty()
    };
    reveal_strlit("-");
    reveal_strlit(".");
    let digits = decimal(magnitude / 100);
    law_decimals_read_back(magnitude / 100);
    let whole = sign + digits;
    let tenths = (magnitude / 10) % 10;
    let rest = magnitude % 10;
    assert(digit_char(tenths) as int == 48 + tenths);
    assert(digit_char(rest) as int == 48 + rest);
    let t = hundredths_text(k);
    assert forall|i: int| 0 <= i < t.len() implies in_number(#[trigger] t[i]) by {
        if i < sign.len() {
            assert(t[i] == sign[i]);
        } else if i < whole.len() {
            assert(t[i] == digits[i - sign.len()]);
        } else if i == whole.len() {
            assert(t[i] == '.');
        } else if i == whole.len() + 1 {
            assert(t[i] == digit_char(tenths));
        } else {
            assert(t[i] == digit_char(rest));
        }
    }
}

/// The words of a point behind other words.
proof fn lemma_point_words(t: Seq<char>, p: Ptf)
    ensures
        words(point_text(p)) =~= seq![coord_text(p.0), coord_text(p.1)],
        words(t + " "@ + point_text(p)) =~= words(t) + seq![coord_text(p.0), coord_text(p.1)],
        forall|i: int| 0 <= i < point_text(p).len() ==> !is_command(#[trigger] point_text(p)[i]),
{
    let (a, b) = (coord_text(p.0), coord_text(p.1));
    lemma_number_chars(p.0.hundredths as int);
    lemma_number_chars(p.1.hundredths as int);
    reveal_strlit(" ");
    assert forall|i: int| 0 <= i < a.len() implies #[trigger] a[i] != ' ' by {
        assert(in_number(a[i]));
    }
    assert forall|i: int| 0 <= i < b.len() implies #[trigger] b[i] != ' ' by {
        assert(in_number(b[i]));
    }
    let none = Seq::<char>::empty();
    lemma_word(none, a);
    assert(none + a =~= a);
    assert(words(a) =~= seq![a]);
    lemma_next_word(a, b);
    lemma_next_word(t, a);
    lemma_next_word(t + " "@ + a, b);
    assert(t + " "@ + point_text(p) =~= t + " "@ + a + " "@ + b);
    let text = point_text(p);
    assert forall|i: int| 0 <= i < text.len() implies !is_command(#[trigger] text[i]) by {
        if i < a.len() {
            assert(text[i] == a[i]);
            assert(in_number(a[i]));
        } else if i > a.len() {
            assert(text[i] == b[i - a.len() - 1]);
            assert(in_number(b[i - a.len() - 1]));
        }
    }
}

proof fn lemma_point(p: Ptf)
    ensures
        numbers(point_text(p)) == coordinates(p),
{
    lemma_point_words(Seq::empty(), p);
    law_coordinates_read_back(p.0.hundredths as int);
    law_coordinates_read_back(p.1.hundredths as int);
    assert(numbers(point_text(p)) =~= coordinates(p));
}

proof fn lemma_seg(seg: Seg)
    ensures
        seg_text(seg).len() > 0,
        is_command(seg_text(seg)[0]),
        commands(seg_text(seg)).len() == 1,
        is_seg(commands(seg_text(seg))[0], seg),
{
    reveal_strlit("L");
    reveal_strlit("C");
    reveal_strlit(" ");
    match seg {
        Seg::Line(p) => {
            lemma_point(p);
            lemma_point_words(Seq::empty(), p);
            lemma_single('L', "L"@, point_text(p));
        },
        Seg::Cubic(a, b, e) => {
            let (ta, tb, te) = (point_text(a), point_text(b), point_text(e));
            lemma_point_words(Seq::empty(), a);
            lemma_point_words(ta, b);
            lemma_point_words(ta + " "@ + tb, e);
            let args = ta + " "@ + tb + " "@ + te;
            assert forall|i: int| 0 <= i < args.len() implies !is_command(#[trigger] args[i]) by {
                let (m, n) = (ta.len() as int, tb.len() as int);
                if i < m {
                    assert(args[i] == ta[i]);
                } else if i == m {
                    assert(args[i] == ' ');
                } else if i < m + 1 + n {
                    assert(args[i] == tb[i - m - 1]);
                } else if i == m + 1 + n {
                    assert(args[i] == ' ');
                } else {
                    assert(args[i] == te[i - m - n - 2]);
                }
            }
            lemma_single('C', "C"@, args);
            assert(seg_text(seg) =~= "C"@ + args);
            law_coordinates_read_back(a.0.hundredths as int);
            law_coordinates_read_back(a.1.hundredths as int);
            law_coordinates_read_back(b.0.hundredths as int);
            law_coordinates_read_back(b.1.hundredths as int);
            law_coordinates_read_back(e.0.hundredths as int);
            law_coordinates_read_back(e.1.hundredths as int);
            assert(numbers(args) =~= coordinates(a) + coordinates(b) + coordinates(e));
        },
    }
}

proof fn lemma_segs(t: Seq<char>, segs: Seq<Seg>, n: int)
    requires
        0 <= n <= segs.len(),
    ensures
        ({
            let cs = commands(t + segs_text(segs, n));
            &&& cs.len() == commands(t).len() + n
            &&& forall|i: int| 0 <= i < commands(t).len() ==> #[trigger] cs[i] == commands(t)[i]
            &&& forall|i: int|
                0 <= i < n ==> is_seg(cs[commands(t).len() + i], #[trigger] segs[i])
        }),
    decreases n,
{
    if n == 0 {
        assert(t + segs_text(segs, 0) =~= t);
    } else {
        lemma_segs(t, segs, n - 1);
        let head = t + segs_text(segs, n - 1);
        let text = seg_text(segs[n - 1]);
        lemma_seg(segs[n - 1]);
        lemma_next_command(head, text);
        assert(t + segs_text(segs, n) =~= head + text);
        let (was, now) = (commands(head), commands(head + text));
        assert forall|i: int| 0 <= i < n implies is_seg(
            now[commands(t).len() + i],
            #[trigger] segs[i],
        ) by {
            if i < n - 1 {
                assert(now[commands(t).len() + i] == was[commands(t).len() + i]);
            }
        }
        assert forall|i: int| 0 <= i < commands(t).len() implies #[trigger] now[i] == commands(
            t,
        )[i] by {
            assert(now[i] == was[i]);
        }
    }
}

/// Path data reads back as the subpath it was written for: a move to its start, one command for
/// each segment in its order, with the segment's points across and down, and the way back.
pub proof fn law_subpaths_read_back(sp: Subpath)
    requires
        sp.segs@.len() >= 2,
    ensures
        draws(commands(subpath_text(sp)), sp),
        is_command(subpath_text(sp)[0]),
{
    reveal_strlit("M");
    reveal_strlit("Z");
    let n = sp.segs@.len() as int;
    let head = "M"@ + point_text(sp.start);
    lemma_point(sp.start);
    lemma_point_words(Seq::empty(), sp.start);
    lemma_single('M', "M"@, point_text(sp.start));
    lemma_segs(head, sp.segs@, n);
    let body = head + segs_text(sp.segs@, n);
    let none = Seq::<char>::empty();
    lemma_single('Z', "Z"@, none);
    assert("Z"@ + none =~= "Z"@);
    lemma_next_command(body, "Z"@);
    assert(subpath_text(sp) =~= body + "Z"@);
    let (was, now) = (commands(body), commands(subpath_text(sp)));
    assert forall|i: int| 0 <= i < n implies is_seg(now[i + 1], #[trigger] sp.segs@[i]) by {
        assert(now[i + 1] == was[i + 1]);
        assert(is_seg(was[commands(head).len() + i], sp.segs@[i]));
    }
    assert(now[0] == was[0]);
}

/// The commands draw those of the first `n` subpaths that have two segments or more, one after the
/// other, and nothing else.
pub open spec fn draws_all(cs: Seq<Command>, sps: Seq<Subpath>, n: int) -> bool
    decreases n,
{
    if n <= 0 {
        cs.len() == 0
    } else {
        let size = sps[n - 1].segs@.len() as int + 2;
        if size < 4 {
            draws_all(cs, sps, n - 1)
        } else {
            &&& size <= cs.len()
            &&& draws(cs.skip(cs.len() - size), sps[n - 1])
            &&& draws_all(cs.take(cs.len() - size), sps, n - 1)
        }
    }
}

proof fn lemma_draws_all(sps: Seq<Subpath>, n: int)
    requires
        0 <= n <= sps.len(),
    ensures
        draws_all(commands(subpaths_text(sps, n)), sps, n),
    decreases n,
{
    if n > 0 {
        let head = subpaths_text(sps, n - 1);
        let text = subpath_text(sps[n - 1]);
        lemma_draws_all(sps, n - 1);
        if sps[n - 1].segs@.len() >= 2 {
            law_subpaths_read_back(sps[n - 1]);
            lemma_next_command(head, text);
            let all = commands(head + text);
            let k = commands(head).len() as int;
            assert(all.skip(k) =~= commands(text));
            assert(all.take(k) =~= commands(head));
        } else {
            assert(head + text =~= head);
        }
    }
}

/// The path data of a region reads back as its subpaths, the outer ones and the holes, in their
/// order; a subpath with fewer than two segments is left out.
pub proof fn law_regions_read_back(r: Region)
    ensures
        draws_all(commands(region_text(r)), r.subpaths@, r.subpaths@.len() as int),
{
    lemma_draws_all(r.subpaths@, r.subpaths@.len() as int);
}

/// A polygon reads back as its corners: a move to the first, a line to each of the others in
/// turn, every one at a whole number of pixels across and down, and the way back.
pub proof fn law_polygons_read_back(sp: Subpath, pts: Seq<Pt>)
    requires
        is_polygon(sp, pts),
        pts.len() >= 3,
    ensures
        ({
            let cs = commands(subpath_text(sp));
            &&& cs.len() == pts.len() + 1
            &&& forall|i: int|
                0 <= i < pts.len() ==> {
                    &&& (#[trigger] cs[i]).0 == if i == 0 {
                        'M'
                    } else {
                        'L'
                    }
                    &&& numbers(cs[i].1) == seq![100 * pts[i].0, 100 * pts[i].1]
                }
            &&& cs.last() == ('Z', Seq::<char>::empty())
        }),
{
    let cs = commands(subpath_text(sp));
    law_subpaths_read_back(sp);
    assert forall|i: int| 0 <= i < pts.len() implies ({
        &&& (#[trigger] cs[i]).0 == if i == 0 {
            'M'
        } else {
            'L'
        }
        &&& numbers(cs[i].1) == seq![100 * pts[i].0, 100 * pts[i].1]
    }) by {
        let p = pts[i];
        assert(coordinates(corner_point(p)) =~= seq![100 * p.0, 100 * p.1]);
        if i > 0 {
            let seg = sp.segs@[i - 1];
            assert(seg == Seg::Line(corner_point(pts.drop_first()[i - 1])));
            assert(pts.drop_first()[i - 1] == p);
            assert(is_seg(cs[i - 1 + 1], seg));
        }
    }
}

} // verus!
