//! What holds of every document and of the text in it.

use vstd::prelude::*;

use crate::svg::{
    body_text, color_number, color_text, definition_of, defs_text, gradient_key, gradient_path,
    gradient_paths, gradients_after, is_solid, layer_gradients, layered_text,
    lemma_definition_exists, region_text, skip_number, solid_paths, svg_text, GradientKey, Region,
};
use crate::text::{decimal, escaped, escaped_char, hundredths_text};

verus! {

/// One of the escapes stands at place `i` of a text.
pub open spec fn escape_at(t: Seq<char>, i: int) -> bool {
    ||| i + 5 <= t.len() && t.subrange(i, i + 5) == "&amp;"@
    ||| i + 4 <= t.len() && t.subrange(i, i + 4) == "&lt;"@
    ||| i + 4 <= t.len() && t.subrange(i, i + 4) == "&gt;"@
    ||| i + 6 <= t.len() && t.subrange(i, i + 6) == "&quot;"@
}

/// Text stands as it is behind whatever comes before it.
proof fn lemma_escape_shift(t: Seq<char>, u: Seq<char>, i: int)
    requires
        0 <= i,
        escape_at(t, i),
    ensures
        escape_at(t + u, i),
{
    let all = t + u;
    if i + 5 <= t.len() {
        assert(all.subrange(i, i + 5) =~= t.subrange(i, i + 5));
    }
    if i + 4 <= t.len() {
        assert(all.subrange(i, i + 4) =~= t.subrange(i, i + 4));
    }
    if i + 6 <= t.len() {
        assert(all.subrange(i, i + 6) =~= t.subrange(i, i + 6));
    }
}

/// An escaped text is legal in a double-quoted attribute: it holds no `<`, `>` or `"`, and every
/// `&` in it begins an escape.
pub proof fn law_escaped_text_is_legal(s: Seq<char>)
    ensures
        forall|i: int|
            0 <= i < escaped(s).len() ==> ({
                let c = #[trigger] escaped(s)[i];
                c != '<' && c != '>' && c != '"' && (c == '&' ==> escape_at(escaped(s), i))
            }),
    decreases s.len(),
{
    if s.len() > 0 {
        let head = escaped(s.drop_last());
        let last = escaped_char(s.last());
        let all = escaped(s);
        law_escaped_text_is_legal(s.drop_last());
        reveal_strlit("&amp;");
        reveal_strlit("&lt;");
        reveal_strlit("&gt;");
        reveal_strlit("&quot;");
        assert forall|i: int| 0 <= i < all.len() implies ({
            let c = #[trigger] all[i];
            c != '<' && c != '>' && c != '"' && (c == '&' ==> escape_at(all, i))
        }) by {
            if i < head.len() {
                assert(all[i] == head[i]);
                if head[i] == '&' {
                    lemma_escape_shift(head, last, i);
                }
            } else {
                assert(all[i] == last[i - head.len()]);
                if all[i] == '&' {
                    assert(i == head.len());
                    assert(all.subrange(i, i + last.len()) =~= last);
                }
            }
        }
    }
}

proof fn lemma_digits(n: nat)
    ensures
        decimal(n).len() > 0,
        forall|i: int|
            0 <= i < decimal(n).len() ==> '0' <= #[trigger] decimal(n)[i] && decimal(n)[i] <= '9',
    decreases n,
{
    if n >= 10 {
        lemma_digits(n / 10);
        let head = decimal(n / 10);
        assert forall|i: int| 0 <= i < decimal(n).len() implies '0' <= #[trigger] decimal(n)[i]
            && decimal(n)[i] <= '9' by {
            if i < head.len() {
                assert(decimal(n)[i] == head[i]);
            }
        }
    }
}

/// A coordinate has at most two decimals and no trailing zeros: where its text has a point, one
/// or two digits follow it, and the last of them is not zero.
pub proof fn law_coordinates_are_trimmed(k: int)
    ensures
        ({
            let t = hundredths_text(k);
            t.contains('.') ==> {
                &&& '1' <= t.last() && t.last() <= '9'
                &&& t.len() > 2
                &&& t[t.len() - 2] == '.' || t[t.len() - 3] == '.'
            }
        }),
{
    let t = hundredths_text(k);
    let magnitude: nat = if k < 0 {
        (-k) as nat
    } else {
        k as nat
    };
    reveal_strlit("-");
    reveal_strlit(".");
    lemma_digits(magnitude / 100);
    if t.contains('.') && magnitude % 100 == 0 {
        let whole = decimal(magnitude / 100);
        let i = choose|i: int| 0 <= i < t.len() && t[i] == '.';
        if k < 0 {
            assert(t =~= "-"@ + whole);
            assert(i == 0 || t[i] == whole[i - 1]);
        } else {
            assert(t =~= whole);
        }
        assert(false);
    }
}

/// Every document is a whole one: it begins with the XML declaration and ends with the closing
/// tag.
pub proof fn law_documents_are_whole(
    width: usize,
    height: usize,
    background: Option<[u8; 3]>,
    regions: Seq<Region>,
    layers: Seq<(String, Vec<Region>)>,
)
    ensures
        "<?xml version=\"1.0\" encoding=\"UTF-8\"?>\n"@.is_prefix_of(
            svg_text(width, height, background, regions),
        ),
        "</svg>\n"@.is_suffix_of(svg_text(width, height, background, regions)),
        "<?xml version=\"1.0\" encoding=\"UTF-8\"?>\n"@.is_prefix_of(
            layered_text(width, height, layers),
        ),
        "</svg>\n"@.is_suffix_of(layered_text(width, height, layers)),
{
}

/// Definitions that a list of regions adds come behind those that were there, and none comes
/// twice; every gradient that paints something has one.
proof fn lemma_gradients(regions: Seq<Region>, keys: Seq<GradientKey>, n: int)
    requires
        0 <= n <= regions.len(),
        keys.no_duplicates(),
    ensures
        keys.is_prefix_of(gradients_after(regions, keys, n)),
        gradients_after(regions, keys, n).no_duplicates(),
        forall|i: int|
            0 <= i < n && !((#[trigger] regions[i]).fill is Solid) && region_text(regions[i]).len()
                > 0 ==> gradients_after(regions, keys, n).contains(gradient_key(regions[i].fill)),
    decreases n,
{
    if n > 0 {
        lemma_gradients(regions, keys, n - 1);
        let before = gradients_after(regions, keys, n - 1);
        let now = gradients_after(regions, keys, n);
        assert forall|key: GradientKey| before.contains(key) implies #[trigger] now.contains(
            key,
        ) by {
            let j = choose|j: int| 0 <= j < before.len() && before[j] == key;
            assert(now[j] == key);
        }
        let r = regions[n - 1];
        if now != before {
            assert(now[before.len() as int] == gradient_key(r.fill));
        }
    }
}

proof fn lemma_layer_gradients(layers: Seq<(String, Vec<Region>)>, m: int, n: int)
    requires
        0 <= m <= n <= layers.len(),
    ensures
        layer_gradients(layers, n).no_duplicates(),
        layer_gradients(layers, m).is_prefix_of(layer_gradients(layers, n)),
    decreases n,
{
    if n > 0 {
        let regions = layers[n - 1].1@;
        let before = layer_gradients(layers, n - 1);
        if m < n {
            lemma_layer_gradients(layers, m, n - 1);
        } else {
            lemma_layer_gradients(layers, n - 1, n - 1);
        }
        lemma_gradients(regions, before, regions.len() as int);
    }
}

/// Identical gradients are defined once and shared, over all layers: no definition comes twice,
/// and a region that is painted with a gradient refers to the definition that holds it.
pub proof fn law_gradients_are_defined_once(
    layers: Seq<(String, Vec<Region>)>,
    l: int,
    i: int,
)
    requires
        0 <= l < layers.len(),
        0 <= i < layers[l].1@.len(),
        !(layers[l].1@[i].fill is Solid),
        region_text(layers[l].1@[i]).len() > 0,
    ensures
        ({
            let defs = layer_gradients(layers, layers.len() as int);
            let key = gradient_key(layers[l].1@[i].fill);
            let id = definition_of(layer_gradients(layers, l + 1), key);
            &&& defs.no_duplicates()
            &&& 0 <= id < defs.len()
            &&& defs[id] == key
        }),
{
    let n = layers.len() as int;
    let regions = layers[l].1@;
    let key = gradient_key(regions[i].fill);
    let then = layer_gradients(layers, l + 1);
    let defs = layer_gradients(layers, n);
    lemma_layer_gradients(layers, l, l);
    lemma_gradients(regions, layer_gradients(layers, l), regions.len() as int);
    lemma_layer_gradients(layers, l + 1, n);
    let j = choose|j: int| 0 <= j < then.len() && then[j] == key;
    let id = lemma_definition_exists(then, key, j);
    assert(defs[id] == then[id]);
}

/// A region that is not of a colour, or draws nothing, leaves the data of the colour as it is.
proof fn lemma_color_without(regions: Seq<Region>, k: int, c: u32, n: int)
    requires
        0 <= k < regions.len(),
        !is_solid(regions[k], c) || region_text(regions[k]).len() == 0,
        0 <= n < regions.len(),
    ensures
        color_text(regions.remove(k), c, n) == color_text(
            regions,
            c,
            if n <= k {
                n
            } else {
                n + 1
            },
        ),
    decreases n,
{
    let rest = regions.remove(k);
    if n > 0 {
        lemma_color_without(regions, k, c, n - 1);
        if n <= k {
            assert(rest[n - 1] == regions[n - 1]);
        } else {
            assert(rest[n - 1] == regions[n]);
            if n == k + 1 {
                assert(color_text(regions, c, n) =~= color_text(regions, c, n - 1));
            }
        }
    }
}

/// The region is not drawn as a flat colour: it is not flat, of the colour to skip, or empty.
spec fn not_flat(r: Region, skip: Option<u32>) -> bool {
    ||| !(r.fill is Solid)
    ||| (skip matches Some(c) && is_solid(r, c))
    ||| region_text(r).len() == 0
}

proof fn lemma_solids_without(regions: Seq<Region>, k: int, skip: Option<u32>, c: int)
    requires
        0 <= k < regions.len(),
        not_flat(regions[k], skip),
        0 <= c <= 0x100_0000,
    ensures
        solid_paths(regions.remove(k), skip, c) == solid_paths(regions, skip, c),
    decreases c,
{
    if c > 0 {
        lemma_solids_without(regions, k, skip, c - 1);
        let color = (c - 1) as u32;
        if skip != Some(color) {
            let n = regions.len() - 1;
            lemma_color_without(regions, k, color, n);
            if n == k {
                assert(color_text(regions, color, n + 1) =~= color_text(regions, color, n));
            }
        }
    }
}

/// `keys` with those of the first `n` wanted keys that are new.
spec fn collected(wanted: Seq<Option<GradientKey>>, keys: Seq<GradientKey>, n: int) -> Seq<
    GradientKey,
>
    decreases n,
{
    if n <= 0 {
        keys
    } else {
        let before = collected(wanted, keys, n - 1);
        match wanted[n - 1] {
            Some(key) => if before.contains(key) {
                before
            } else {
                before.push(key)
            },
            None => before,
        }
    }
}

proof fn lemma_collected_without(
    wanted: Seq<Option<GradientKey>>,
    keys: Seq<GradientKey>,
    k: int,
    n: int,
)
    requires
        0 <= k < wanted.len(),
        wanted[k] is None,
        0 <= n < wanted.len(),
    ensures
        collected(wanted.remove(k), keys, n) == collected(
            wanted,
            keys,
            if n <= k {
                n
            } else {
                n + 1
            },
        ),
    decreases n,
{
    if n > 0 {
        lemma_collected_without(wanted, keys, k, n - 1);
        if n == k + 1 {
            assert(collected(wanted, keys, n) == collected(wanted, keys, n - 1));
        }
    }
}

/// The key that a region needs a definition for.
spec fn wanted_key(r: Region) -> Option<GradientKey> {
    if !(r.fill is Solid) && region_text(r).len() > 0 {
        Some(gradient_key(r.fill))
    } else {
        None
    }
}

spec fn wanted_keys(regions: Seq<Region>) -> Seq<Option<GradientKey>> {
    regions.map_values(|r: Region| wanted_key(r))
}

proof fn lemma_gradients_collected(regions: Seq<Region>, keys: Seq<GradientKey>, n: int)
    requires
        0 <= n <= regions.len(),
    ensures
        gradients_after(regions, keys, n) == collected(wanted_keys(regions), keys, n),
    decreases n,
{
    if n > 0 {
        lemma_gradients_collected(regions, keys, n - 1);
        assert(wanted_keys(regions)[n - 1] == wanted_key(regions[n - 1]));
    }
}

proof fn lemma_gradients_without(regions: Seq<Region>, k: int, keys: Seq<GradientKey>)
    requires
        0 <= k < regions.len(),
        regions[k].fill is Solid || region_text(regions[k]).len() == 0,
    ensures
        gradients_after(regions.remove(k), keys, regions.len() - 1) == gradients_after(
            regions,
            keys,
            regions.len() as int,
        ),
{
    let rest = regions.remove(k);
    let n = regions.len() - 1;
    let wanted = wanted_keys(regions);
    lemma_gradients_collected(rest, keys, n);
    lemma_gradients_collected(regions, keys, n + 1);
    assert(wanted_keys(rest) =~= wanted.remove(k));
    assert(wanted[k] is None);
    lemma_collected_without(wanted, keys, k, n);
    if n == k {
        assert(collected(wanted, keys, n + 1) == collected(wanted, keys, n));
    }
}

/// The first `n` of some texts, one behind the other.
spec fn joined(texts: Seq<Seq<char>>, n: int) -> Seq<char>
    decreases n,
{
    if n <= 0 {
        Seq::empty()
    } else {
        joined(texts, n - 1) + texts[n - 1]
    }
}

proof fn lemma_joined_without(texts: Seq<Seq<char>>, k: int, n: int)
    requires
        0 <= k < texts.len(),
        texts[k].len() == 0,
        0 <= n < texts.len(),
    ensures
        joined(texts.remove(k), n) == joined(
            texts,
            if n <= k {
                n
            } else {
                n + 1
            },
        ),
    decreases n,
{
    if n > 0 {
        lemma_joined_without(texts, k, n - 1);
        if n == k + 1 {
            assert(joined(texts, n) =~= joined(texts, n - 1));
        }
    }
}

/// The path element of a gradient region that encloses something.
spec fn path_text(r: Region, keys: Seq<GradientKey>) -> Seq<char> {
    if !(r.fill is Solid) && region_text(r).len() > 0 {
        gradient_path(region_text(r), definition_of(keys, gradient_key(r.fill)))
    } else {
        Seq::empty()
    }
}

spec fn path_texts(regions: Seq<Region>, keys: Seq<GradientKey>) -> Seq<Seq<char>> {
    regions.map_values(|r: Region| path_text(r, keys))
}

proof fn lemma_paths_joined(regions: Seq<Region>, keys: Seq<GradientKey>, n: int)
    requires
        0 <= n <= regions.len(),
    ensures
        gradient_paths(regions, keys, n) == joined(path_texts(regions, keys), n),
    decreases n,
{
    if n > 0 {
        lemma_paths_joined(regions, keys, n - 1);
        let r = regions[n - 1];
        assert(path_texts(regions, keys)[n - 1] == path_text(r, keys));
        let before = gradient_paths(regions, keys, n - 1);
        if path_text(r, keys) == Seq::<char>::empty() {
            assert(before + path_text(r, keys) =~= before);
        }
    }
}

proof fn lemma_paths_without(regions: Seq<Region>, k: int, keys: Seq<GradientKey>)
    requires
        0 <= k < regions.len(),
        regions[k].fill is Solid || region_text(regions[k]).len() == 0,
    ensures
        gradient_paths(regions.remove(k), keys, regions.len() - 1) == gradient_paths(
            regions,
            keys,
            regions.len() as int,
        ),
{
    let rest = regions.remove(k);
    let n = regions.len() - 1;
    let texts = path_texts(regions, keys);
    lemma_paths_joined(rest, keys, n);
    lemma_paths_joined(regions, keys, n + 1);
    assert(path_texts(rest, keys) =~= texts.remove(k));
    assert(texts[k].len() == 0);
    lemma_joined_without(texts, k, n);
    if n == k {
        assert(joined(texts, n + 1) =~= joined(texts, n));
    }
}

/// A region that is not drawn leaves definitions and elements as they are.
proof fn lemma_body_without(
    regions: Seq<Region>,
    k: int,
    skip: Option<u32>,
    keys: Seq<GradientKey>,
)
    requires
        0 <= k < regions.len(),
        not_flat(regions[k], skip),
        regions[k].fill is Solid || region_text(regions[k]).len() == 0,
    ensures
        gradients_after(regions.remove(k), keys, regions.len() - 1) == gradients_after(
            regions,
            keys,
            regions.len() as int,
        ),
        body_text(regions.remove(k), skip, keys) == body_text(regions, skip, keys),
{
    lemma_solids_without(regions, k, skip, 0x100_0000);
    lemma_gradients_without(regions, k, keys);
    lemma_paths_without(regions, k, gradients_after(regions, keys, regions.len() as int));
}

/// A region that encloses nothing adds nothing to what is drawn of a list of regions, neither an
/// element nor a definition.
pub proof fn law_empty_regions_add_nothing(
    regions: Seq<Region>,
    k: int,
    skip: Option<u32>,
    keys: Seq<GradientKey>,
)
    requires
        0 <= k < regions.len(),
        region_text(regions[k]).len() == 0,
    ensures
        gradients_after(regions.remove(k), keys, regions.len() - 1) == gradients_after(
            regions,
            keys,
            regions.len() as int,
        ),
        body_text(regions.remove(k), skip, keys) == body_text(regions, skip, keys),
{
    lemma_body_without(regions, k, skip, keys);
}

/// Every gradient region that encloses something adds one path element, which refers to the
/// definition of its gradient. One that is not defined yet, by this list or before it, adds one
/// definition, behind the others, and the next number.
pub proof fn law_gradient_regions_are_drawn_in_order(
    regions: Seq<Region>,
    keys: Seq<GradientKey>,
    n: int,
)
    requires
        0 <= n < regions.len(),
        keys.no_duplicates(),
        !(regions[n].fill is Solid),
        region_text(regions[n]).len() > 0,
    ensures
        ({
            let key = gradient_key(regions[n].fill);
            let before = gradients_after(regions, keys, n);
            let now = gradients_after(regions, keys, n + 1);
            let id = definition_of(now, key);
            &&& now == if before.contains(key) {
                before
            } else {
                before.push(key)
            }
            &&& 0 <= id < now.len() && now[id] == key
            &&& !before.contains(key) ==> id == before.len()
            &&& gradient_paths(regions, now, n + 1) == gradient_paths(regions, now, n)
                + gradient_path(region_text(regions[n]), id)
        }),
{
    let key = gradient_key(regions[n].fill);
    let before = gradients_after(regions, keys, n);
    let now = gradients_after(regions, keys, n + 1);
    lemma_gradients(regions, keys, n + 1);
    assert(now.contains(key));
    let j = choose|j: int| 0 <= j < now.len() && now[j] == key;
    let id = lemma_definition_exists(now, key, j);
    if !before.contains(key) && id < before.len() {
        assert(now[id] == before[id]);
    }
}

/// The region is painted with a gradient and encloses something.
pub open spec fn shaded(r: Region) -> bool {
    !(r.fill is Solid) && region_text(r).len() > 0
}

proof fn lemma_no_color(regions: Seq<Region>, c: u32, n: int)
    requires
        0 <= n <= regions.len(),
        forall|i: int| 0 <= i < regions.len() ==> !((#[trigger] regions[i]).fill is Solid),
    ensures
        color_text(regions, c, n) == Seq::<char>::empty(),
    decreases n,
{
    if n > 0 {
        lemma_no_color(regions, c, n - 1);
        assert(!(regions[n - 1].fill is Solid));
    }
}

proof fn lemma_no_solids(regions: Seq<Region>, skip: Option<u32>, c: int)
    requires
        forall|i: int| 0 <= i < regions.len() ==> !((#[trigger] regions[i]).fill is Solid),
    ensures
        solid_paths(regions, skip, c) == Seq::<char>::empty(),
    decreases c,
{
    if c > 0 {
        lemma_no_solids(regions, skip, c - 1);
        lemma_no_color(regions, (c - 1) as u32, regions.len() as int);
    }
}

/// Definitions are written behind those before them.
proof fn lemma_defs_extend(keys: Seq<GradientKey>, more: Seq<GradientKey>, n: int)
    requires
        keys.is_prefix_of(more),
        0 <= n <= more.len(),
    ensures
        n <= keys.len() ==> defs_text(more, n) == defs_text(keys, n),
        n >= keys.len() ==> defs_text(keys, keys.len() as int).is_prefix_of(defs_text(more, n)),
    decreases n,
{
    if n > 0 {
        lemma_defs_extend(keys, more, n - 1);
        if n <= keys.len() {
            assert(more[n - 1] == keys[n - 1]);
        } else {
            let (a, b) = (defs_text(keys, keys.len() as int), defs_text(more, n - 1));
            let c = defs_text(more, n);
            assert(c.take(b.len() as int) =~= b);
            assert(b.take(a.len() as int) =~= a);
            assert(c.take(a.len() as int) =~= b.take(a.len() as int));
        }
    }
}

/// Where the definitions that are new after the first `n` regions come from.
proof fn lemma_new_definition(regions: Seq<Region>, keys: Seq<GradientKey>, n: int, d: int) -> (i:
    int)
    requires
        0 <= n <= regions.len(),
        keys.len() <= d < gradients_after(regions, keys, n).len(),
    ensures
        0 <= i < n,
        shaded(regions[i]),
        gradient_key(regions[i].fill) == gradients_after(regions, keys, n)[d],
    decreases n,
{
    let before = gradients_after(regions, keys, n - 1);
    if d < before.len() {
        lemma_new_definition(regions, keys, n - 1, d)
    } else {
        n - 1
    }
}

/// A list of gradient regions is drawn as one path per region that encloses something, in their
/// order, and nothing else. Definitions made before keep their numbers and their text; the new
/// ones are written behind them, one for each gradient that was not there yet. Two regions refer
/// to one definition exactly if their gradients are the same.
pub proof fn law_gradient_lists_share_definitions(
    regions: Seq<Region>,
    skip: Option<u32>,
    keys: Seq<GradientKey>,
)
    requires
        keys.no_duplicates(),
        forall|i: int| 0 <= i < regions.len() ==> !((#[trigger] regions[i]).fill is Solid),
    ensures
        ({
            let now = gradients_after(regions, keys, regions.len() as int);
            &&& body_text(regions, skip, keys) == gradient_paths(regions, now, regions.len() as int)
            &&& keys.is_prefix_of(now)
            &&& now.no_duplicates()
            &&& defs_text(keys, keys.len() as int).is_prefix_of(defs_text(now, now.len() as int))
            &&& forall|key: GradientKey| #[trigger]
                keys.contains(key) ==> definition_of(now, key) == definition_of(keys, key)
            &&& forall|d: int|
                keys.len() <= d < now.len() ==> exists|i: int|
                    0 <= i < regions.len() && shaded(#[trigger] regions[i]) && gradient_key(
                        regions[i].fill,
                    ) == #[trigger] now[d]
            &&& forall|i: int, j: int|
                #![trigger regions[i], regions[j]]
                0 <= i < regions.len() && 0 <= j < regions.len() && shaded(regions[i]) && shaded(
                    regions[j],
                ) ==> (definition_of(now, gradient_key(regions[i].fill)) == definition_of(
                    now,
                    gradient_key(regions[j].fill),
                ) <==> gradient_key(regions[i].fill) == gradient_key(regions[j].fill))
        }),
{
    let n = regions.len() as int;
    let now = gradients_after(regions, keys, n);
    lemma_no_solids(regions, skip, 0x100_0000);
    assert(body_text(regions, skip, keys) =~= gradient_paths(regions, now, n));
    lemma_gradients(regions, keys, n);
    lemma_defs_extend(keys, now, now.len() as int);
    assert forall|key: GradientKey| #[trigger] keys.contains(key) implies definition_of(now, key)
        == definition_of(keys, key) by {
        let j = choose|j: int| 0 <= j < keys.len() && keys[j] == key;
        let a = lemma_definition_exists(keys, key, j);
        assert(now[j] == keys[j]);
        let b = lemma_definition_exists(now, key, j);
        assert(now[a] == keys[a]);
    }
    assert forall|d: int| keys.len() <= d < now.len() implies exists|i: int|
        0 <= i < regions.len() && shaded(#[trigger] regions[i]) && gradient_key(regions[i].fill)
            == #[trigger] now[d] by {
        let i = lemma_new_definition(regions, keys, n, d);
        assert(shaded(regions[i]));
    }
    assert forall|i: int, j: int|
        #![trigger regions[i], regions[j]]
        0 <= i < n && 0 <= j < n && shaded(regions[i]) && shaded(regions[j]) implies (definition_of(
        now,
        gradient_key(regions[i].fill),
    ) == definition_of(now, gradient_key(regions[j].fill)) <==> gradient_key(regions[i].fill)
        == gradient_key(regions[j].fill)) by {
        let (a, b) = (gradient_key(regions[i].fill), gradient_key(regions[j].fill));
        assert(now.contains(a) && now.contains(b));
        let u = choose|u: int| 0 <= u < now.len() && now[u] == a;
        let v = choose|v: int| 0 <= v < now.len() && now[v] == b;
        let x = lemma_definition_exists(now, a, u);
        let y = lemma_definition_exists(now, b, v);
    }
}

/// Two gradient regions refer to one definition exactly if their gradients are the same, whether
/// they stand in one layer or in two.
pub proof fn law_gradients_are_shared_if_equal(
    layers: Seq<(String, Vec<Region>)>,
    l: int,
    i: int,
    m: int,
    j: int,
)
    requires
        0 <= l < layers.len(),
        0 <= i < layers[l].1@.len(),
        !(layers[l].1@[i].fill is Solid),
        region_text(layers[l].1@[i]).len() > 0,
        0 <= m < layers.len(),
        0 <= j < layers[m].1@.len(),
        !(layers[m].1@[j].fill is Solid),
        region_text(layers[m].1@[j]).len() > 0,
    ensures
        ({
            let (a, b) = (
                gradient_key(layers[l].1@[i].fill),
                gradient_key(layers[m].1@[j].fill),
            );
            definition_of(layer_gradients(layers, l + 1), a) == definition_of(
                layer_gradients(layers, m + 1),
                b,
            ) <==> a == b
        }),
{
    law_gradients_are_defined_once(layers, l, i);
    law_gradients_are_defined_once(layers, m, j);
}

/// What the background rectangle paints already is not painted again: a region in the colour of
/// the background adds nothing to the document.
pub proof fn law_background_is_not_painted_again(
    width: usize,
    height: usize,
    background: [u8; 3],
    regions: Seq<Region>,
    k: int,
)
    requires
        0 <= k < regions.len(),
        is_solid(regions[k], color_number(background)),
    ensures
        svg_text(width, height, Some(background), regions.remove(k)) == svg_text(
            width,
            height,
            Some(background),
            regions,
        ),
{
    lemma_body_without(regions, k, Some(color_number(background)), Seq::empty());
    assert(skip_number(Some(background)) == Some(color_number(background)));
}

} // verus!
