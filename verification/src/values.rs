//! Parsers for CSS property values that need no arithmetic on lengths: keywords, `!important`,
//! `font-weight`, `content` strings, `url(...)` sources, comma and token splitting.

use vstd::prelude::*;
use crate::style::{ListStyleType, ComputedStyle};
use crate::selector::{contains_seq, attr_value_ci, first_char_index};
use crate::dom::{ElementData, attr_value};
use crate::serialize::{
    hex_len, hex_value, hex_digit_value, scalar_value, lemma_hex_len_bound, pow16, char_from_u32,
};
use crate::variables::{close_paren, lemma_close_paren};
use crate::text::{
    is_ws, is_digit, is_hex_digit, lower_seq, trim, trim_end, starts_with, ends_with, split_ws,
    views, to_chars, lower, seq_eq, eq_str, has_prefix, has_suffix, trim_vec, split_whitespace,
    slice_vec, string_from, string_of, is_whitespace, is_ascii_hexdigit, push_char, push_str,
    ws_split_state,
};

verus! {

broadcast use vstd::string::group_string_axioms;

/// Which side(s) of a box a value targets.
#[derive(Clone, Copy, PartialEq, Eq, Debug, Structural)]
pub enum EdgeSide {
    Top,
    Right,
    Bottom,
    Left,
    All,
}

/// The `background-repeat` value.
#[derive(Clone, Copy, PartialEq, Eq, Debug, Structural)]
pub enum BgRepeat {
    Repeat,
    RepeatX,
    RepeatY,
    NoRepeat,
}

fn lowered(s: &str) -> (r: Vec<char>)
    ensures
        r@ == lower_seq(s@),
{
    lower(&to_chars(s))
}

fn contains_chars(hay: &Vec<char>, needle: &str) -> (r: bool)
    ensures
        r == contains_seq(hay@, needle@),
{
    let nv = to_chars(needle);
    let h = hay.len();
    let n = nv.len();
    if n > h {
        return false;
    }
    if n == 0 {
        assert(hay@.subrange(0int, 0int + needle@.len()) =~= needle@);
        return true;
    }
    let mut i: usize = 0;
    while i <= h - n
        invariant
            nv@ == needle@,
            1 <= n <= h,
            h == hay@.len(),
            n == nv@.len(),
            0 <= i <= h - n + 1,
            forall|j: int| 0 <= j < i ==> #[trigger] hay@.subrange(j, j + n) != needle@,
        decreases h - n + 1 - i,
    {
        let piece = slice_vec(hay, i, i + n);
        if seq_eq(&piece, &nv) {
            return true;
        }
        i += 1;
    }
    false
}

// ---------------------------------------------------------------------------------------------
// Keywords
// ---------------------------------------------------------------------------------------------

pub open spec fn block_tag(tag: Seq<char>) -> bool {
    let t = lower_seq(tag);
    ||| t == "html"@ || t == "body"@ || t == "div"@ || t == "p"@ || t == "section"@
    ||| t == "article"@ || t == "header"@ || t == "footer"@ || t == "nav"@ || t == "main"@
    ||| t == "aside"@ || t == "ul"@ || t == "ol"@ || t == "li"@ || t == "blockquote"@
    ||| t == "pre"@ || t == "table"@ || t == "tr"@ || t == "h1"@ || t == "h2"@
    ||| t == "h3"@ || t == "h4"@ || t == "h5"@ || t == "h6"@ || t == "form"@
    ||| t == "fieldset"@ || t == "figure"@ || t == "figcaption"@ || t == "address"@ || t == "hr"@
}

/// Block-level-by-default tags.
pub fn is_block_tag(tag: &str) -> (r: bool)
    ensures
        r == block_tag(tag@),
{
    let t = lowered(tag);
    eq_str(&t, "html") || eq_str(&t, "body") || eq_str(&t, "div") || eq_str(&t, "p") || eq_str(
        &t,
        "section",
    ) || eq_str(&t, "article") || eq_str(&t, "header") || eq_str(&t, "footer") || eq_str(&t, "nav")
        || eq_str(&t, "main") || eq_str(&t, "aside") || eq_str(&t, "ul") || eq_str(&t, "ol")
        || eq_str(&t, "li") || eq_str(&t, "blockquote") || eq_str(&t, "pre") || eq_str(&t, "table")
        || eq_str(&t, "tr") || eq_str(&t, "h1") || eq_str(&t, "h2") || eq_str(&t, "h3") || eq_str(
        &t,
        "h4",
    ) || eq_str(&t, "h5") || eq_str(&t, "h6") || eq_str(&t, "form") || eq_str(&t, "fieldset")
        || eq_str(&t, "figure") || eq_str(&t, "figcaption") || eq_str(&t, "address") || eq_str(
        &t,
        "hr",
    )
}

pub open spec fn math_func(value: Seq<char>) -> bool {
    let l = lower_seq(value);
    contains_seq(l, "calc("@) || contains_seq(l, "min("@) || contains_seq(l, "max("@)
        || contains_seq(l, "clamp("@)
}

/// True if a value contains a length math function (`calc`/`min`/`max`/`clamp`).
pub fn has_math_func(value: &str) -> (r: bool)
    ensures
        r == math_func(value@),
{
    let l = lowered(value);
    contains_chars(&l, "calc(") || contains_chars(&l, "min(") || contains_chars(&l, "max(")
        || contains_chars(&l, "clamp(")
}

pub open spec fn list_style_type_of(val: Seq<char>) -> Option<ListStyleType> {
    let v = lower_seq(trim(val));
    if v == "disc"@ {
        Some(ListStyleType::Disc)
    } else if v == "circle"@ {
        Some(ListStyleType::Circle)
    } else if v == "square"@ {
        Some(ListStyleType::Square)
    } else if v == "decimal"@ {
        Some(ListStyleType::Decimal)
    } else if v == "none"@ {
        Some(ListStyleType::NoMarker)
    } else {
        None
    }
}

/// Parse a single `list-style-type` keyword (`None` for unknown tokens).
pub fn parse_list_style_type(val: &str) -> (r: Option<ListStyleType>)
    ensures
        r == list_style_type_of(val@),
{
    let v = lower(&trim_vec(&to_chars(val)));
    if eq_str(&v, "disc") {
        Some(ListStyleType::Disc)
    } else if eq_str(&v, "circle") {
        Some(ListStyleType::Circle)
    } else if eq_str(&v, "square") {
        Some(ListStyleType::Square)
    } else if eq_str(&v, "decimal") {
        Some(ListStyleType::Decimal)
    } else if eq_str(&v, "none") {
        Some(ListStyleType::NoMarker)
    } else {
        None
    }
}

pub open spec fn bg_repeat_of(val: Seq<char>) -> BgRepeat {
    let v = lower_seq(trim(val));
    if v == "no-repeat"@ {
        BgRepeat::NoRepeat
    } else if v == "repeat-x"@ {
        BgRepeat::RepeatX
    } else if v == "repeat-y"@ {
        BgRepeat::RepeatY
    } else if v == "repeat"@ || v.len() == 0 || v == "repeat repeat"@ {
        BgRepeat::Repeat
    } else {
        let w = split_ws(v);
        if w.len() >= 2 && w[0] == "repeat"@ && w[1] == "no-repeat"@ {
            BgRepeat::RepeatX
        } else if w.len() >= 2 && w[0] == "no-repeat"@ && w[1] == "repeat"@ {
            BgRepeat::RepeatY
        } else if w.len() >= 2 && w[0] == "no-repeat"@ && w[1] == "no-repeat"@ {
            BgRepeat::NoRepeat
        } else {
            BgRepeat::Repeat
        }
    }
}

/// Parse `background-repeat` (a single keyword or the two-value `<x> <y>` form).
pub fn parse_bg_repeat(val: &str) -> (r: BgRepeat)
    ensures
        r == bg_repeat_of(val@),
{
    let v = lower(&trim_vec(&to_chars(val)));
    if eq_str(&v, "no-repeat") {
        return BgRepeat::NoRepeat;
    } else if eq_str(&v, "repeat-x") {
        return BgRepeat::RepeatX;
    } else if eq_str(&v, "repeat-y") {
        return BgRepeat::RepeatY;
    } else if eq_str(&v, "repeat") || v.len() == 0 || eq_str(&v, "repeat repeat") {
        return BgRepeat::Repeat;
    }
    let w = split_whitespace(&v);
    if w.len() >= 2 {
        assert(views(w@)[0] == w@[0]@ && views(w@)[1] == w@[1]@);
        if eq_str(&w[0], "repeat") && eq_str(&w[1], "no-repeat") {
            return BgRepeat::RepeatX;
        } else if eq_str(&w[0], "no-repeat") && eq_str(&w[1], "repeat") {
            return BgRepeat::RepeatY;
        } else if eq_str(&w[0], "no-repeat") && eq_str(&w[1], "no-repeat") {
            return BgRepeat::NoRepeat;
        }
    }
    BgRepeat::Repeat
}

/// A `background-repeat` value tiles the image along the horizontal axis.
pub open spec fn tiles_x(r: BgRepeat) -> bool {
    r is Repeat || r is RepeatX
}

/// A `background-repeat` value tiles the image along the vertical axis.
pub open spec fn tiles_y(r: BgRepeat) -> bool {
    r is Repeat || r is RepeatY
}

/// Each one-keyword `background-repeat` value (in any case, with any surrounding whitespace)
/// names the axes it tiles: `repeat-x` only across, `repeat-y` only down, `repeat` both,
/// `no-repeat` neither.
pub proof fn law_bg_repeat_keywords(val: Seq<char>)
    ensures
        lower_seq(trim(val)) == "repeat-x"@ ==> tiles_x(bg_repeat_of(val)) && !tiles_y(bg_repeat_of(val)),
        lower_seq(trim(val)) == "repeat-y"@ ==> !tiles_x(bg_repeat_of(val)) && tiles_y(bg_repeat_of(val)),
        lower_seq(trim(val)) == "repeat"@ ==> tiles_x(bg_repeat_of(val)) && tiles_y(bg_repeat_of(val)),
        lower_seq(trim(val)) == "no-repeat"@ ==> !tiles_x(bg_repeat_of(val)) && !tiles_y(bg_repeat_of(val)),
{
    reveal_strlit("repeat-x");
    reveal_strlit("repeat-y");
    reveal_strlit("repeat");
    reveal_strlit("no-repeat");
    assert("repeat-y"@[7] != "repeat-x"@[7]);
    assert("repeat-y"@ != "repeat-x"@);
    assert("repeat"@.len() == 6 && "no-repeat"@.len() == 9 && "repeat-x"@.len() == 8);
    assert("repeat"@ != "no-repeat"@ && "repeat"@ != "repeat-x"@ && "repeat"@ != "repeat-y"@);
    assert("no-repeat"@ != "repeat-x"@ && "no-repeat"@ != "repeat-y"@);
}

/// Scanning a whitespace-free word extends the pending word by it.
proof fn lemma_split_state_word(pre: Seq<char>, w: Seq<char>)
    requires
        forall|i: int| 0 <= i < w.len() ==> !is_ws(#[trigger] w[i]),
    ensures
        ws_split_state(pre + w) == (ws_split_state(pre).0, ws_split_state(pre).1 + w),
    decreases w.len(),
{
    if w.len() == 0 {
        assert(pre + w =~= pre);
        assert(ws_split_state(pre).1 + w =~= ws_split_state(pre).1);
    } else {
        let p = w.drop_last();
        assert forall|i: int| 0 <= i < p.len() implies !is_ws(#[trigger] p[i]) by {
            assert(p[i] == w[i]);
        }
        lemma_split_state_word(pre, p);
        assert((pre + w).drop_last() =~= pre + p);
        assert((pre + w).last() == w[w.len() - 1]);
        assert((ws_split_state(pre).1 + p).push(w.last()) =~= ws_split_state(pre).1 + w);
    }
}

/// Scanning whitespace closes the pending word.
proof fn lemma_split_state_spaces(pre: Seq<char>, sp: Seq<char>)
    requires
        sp.len() > 0,
        forall|i: int| 0 <= i < sp.len() ==> is_ws(#[trigger] sp[i]),
    ensures
        ws_split_state(pre + sp) == (
            if ws_split_state(pre).1.len() > 0 {
                ws_split_state(pre).0.push(ws_split_state(pre).1)
            } else {
                ws_split_state(pre).0
            },
            Seq::<char>::empty(),
        ),
    decreases sp.len(),
{
    let p = sp.drop_last();
    assert((pre + sp).drop_last() =~= pre + p);
    assert((pre + sp).last() == sp[sp.len() - 1]);
    if p.len() == 0 {
        assert(pre + p =~= pre);
    } else {
        assert forall|i: int| 0 <= i < p.len() implies is_ws(#[trigger] p[i]) by {
            assert(p[i] == sp[i]);
        }
        lemma_split_state_spaces(pre, p);
    }
}

/// The two-value form `<x> <y>` of `background-repeat` (each `repeat` or `no-repeat`, any
/// whitespace between them) tiles across exactly when `x` is `repeat` and down exactly when `y`
/// is: so `repeat no-repeat` agrees with `repeat-x`, `no-repeat repeat` with `repeat-y`.
pub proof fn law_bg_repeat_two_values(val: Seq<char>, x: Seq<char>, sep: Seq<char>, y: Seq<char>)
    requires
        x == "repeat"@ || x == "no-repeat"@,
        y == "repeat"@ || y == "no-repeat"@,
        sep.len() > 0,
        forall|i: int| 0 <= i < sep.len() ==> is_ws(#[trigger] sep[i]),
        lower_seq(trim(val)) == x + sep + y,
    ensures
        tiles_x(bg_repeat_of(val)) == (x == "repeat"@),
        tiles_y(bg_repeat_of(val)) == (y == "repeat"@),
{
    reveal_strlit("repeat-x");
    reveal_strlit("repeat-y");
    reveal_strlit("repeat");
    reveal_strlit("no-repeat");
    reveal_strlit("repeat repeat");
    let v = lower_seq(trim(val));
    assert(x.len() >= 6 && y.len() >= 6);
    assert(v.len() >= 13);
    assert(forall|i: int| 0 <= i < x.len() ==> !is_ws(#[trigger] x[i]));
    assert(forall|i: int| 0 <= i < y.len() ==> !is_ws(#[trigger] y[i]));
    assert(v != "no-repeat"@ && v != "repeat-x"@ && v != "repeat-y"@ && v != "repeat"@ && v.len() != 0);
    if v == "repeat repeat"@ {
        assert(x.len() == 6 && y.len() == 6);
        assert(x == "repeat"@ && y == "repeat"@);
        assert(bg_repeat_of(val) is Repeat);
        assert(tiles_x(bg_repeat_of(val)) == (x == "repeat"@));
    } else {
        let e = Seq::<char>::empty();
        lemma_split_state_word(e, x);
        assert(e + x =~= x);
        assert(ws_split_state(e) == (Seq::<Seq<char>>::empty(), e));
        assert(e + x =~= x);
        lemma_split_state_spaces(x, sep);
        lemma_split_state_word(x + sep, y);
        assert(ws_split_state(x + sep + y) == (seq![x], e + y));
        assert(e + y =~= y);
        assert(split_ws(v) =~= seq![x, y]);
        assert("repeat"@ != "no-repeat"@);
        let w = split_ws(v);
        assert(w.len() >= 2 && w[0] == x && w[1] == y);
        if x == "repeat"@ {
            if y == "repeat"@ {
                assert(bg_repeat_of(val) is Repeat);
            } else {
                assert(bg_repeat_of(val) is RepeatX);
            }
        } else {
            assert(x == "no-repeat"@);
            if y == "repeat"@ {
                assert(bg_repeat_of(val) is RepeatY);
            } else {
                assert(bg_repeat_of(val) is NoRepeat);
            }
        }
    }
}

// ---------------------------------------------------------------------------------------------
// !important and font-weight
// ---------------------------------------------------------------------------------------------

/// A declaration value without its trailing `!important` (any case, whitespace allowed around the
/// `!`), and whether it had one.
pub open spec fn importance_split(val: Seq<char>) -> (Seq<char>, bool) {
    let t = trim_end(val);
    if ends_with(lower_seq(t), "important"@) {
        let before = trim_end(t.take(t.len() - 9));
        if before.len() > 0 && before.last() == '!' {
            (trim_end(before.drop_last()), true)
        } else {
            (t, false)
        }
    } else {
        (t, false)
    }
}

fn trim_end_len(v: &Vec<char>, hi: usize) -> (r: usize)
    requires
        hi <= v@.len(),
    ensures
        r <= hi,
        v@.take(r as int) == trim_end(v@.take(hi as int)),
{
    let mut k = hi;
    while k > 0 && is_whitespace(v[k - 1])
        invariant
            k <= hi <= v@.len(),
            trim_end(v@.take(hi as int)) == trim_end(v@.take(k as int)),
        decreases k,
    {
        assert(v@.take(k as int).drop_last() =~= v@.take(k - 1));
        k -= 1;
    }
    assert(v@.take(k as int) =~= trim_end(v@.take(k as int))) by {
        if k > 0 {
            assert(v@.take(k as int).last() == v@[k - 1]);
        }
    }
    k
}

/// Split a declaration value into `(value_without_importance, is_important)`.
pub fn split_importance(val: &str) -> (r: (&str, bool))
    ensures
        (r.0@, r.1) == importance_split(val@),
{
    proof {
        reveal_strlit("important");
    }
    let v = to_chars(val);
    let end = trim_end_len(&v, v.len());
    assert(v@.take(v@.len() as int) =~= v@);
    let ghost t = v@.take(end as int);
    let l = lower(&slice_vec(&v, 0, end));
    assert(slice_vec_view(v@, end as int) == t);
    if end >= 9 {
        let tail = slice_vec(&l, end - 9, end);
        assert(tail@ =~= lower_seq(t).skip(end - 9));
        if eq_str(&tail, "important") {
            let b = trim_end_len(&v, end - 9);
            assert(v@.take(end - 9) =~= t.take(t.len() - 9));
            if b > 0 && v[b - 1] == '!' {
                let b2 = trim_end_len(&v, b - 1);
                assert(v@.take(b as int).drop_last() =~= v@.take(b - 1));
                assert(v@.take(b as int).last() == v@[b - 1]);
                return (val.substring_char(0, b2), true);
            }
            if b > 0 {
                assert(v@.take(b as int).last() == v@[b - 1]);
            }
            return (val.substring_char(0, end), false);
        }
    }
    (val.substring_char(0, end), false)
}

pub open spec fn slice_vec_view(s: Seq<char>, n: int) -> Seq<char> {
    s.take(n)
}

/// The decimal value of a run of ASCII digits.
pub open spec fn dec_value(s: Seq<char>) -> nat
    decreases s.len(),
{
    if s.len() == 0 {
        0
    } else {
        dec_value(s.drop_last()) * 10 + (s.last() as nat - '0' as nat) as nat
    }
}

pub open spec fn all_digits(s: Seq<char>) -> bool {
    forall|k: int| 0 <= k < s.len() ==> is_digit(#[trigger] s[k])
}

/// What `str::parse` accepts for an unsigned integer type whose largest value is `max`: an
/// optional `+`, then one or more ASCII digits whose value is at most `max`.
pub open spec fn parse_uint_spec(s: Seq<char>, max: nat) -> Option<nat> {
    let d = if s.len() > 0 && s[0] == '+' {
        s.skip(1)
    } else {
        s
    };
    if d.len() == 0 || !all_digits(d) || dec_value(d) > max {
        None
    } else {
        Some(dec_value(d))
    }
}

proof fn lemma_dec_value_mono(s: Seq<char>, k: int)
    requires
        0 <= k <= s.len(),
        all_digits(s),
    ensures
        dec_value(s.take(k)) <= dec_value(s),
    decreases s.len() - k,
{
    if k < s.len() {
        lemma_dec_value_mono(s, k + 1);
        assert(s.take(k + 1).drop_last() =~= s.take(k));
        assert(is_digit(s[k]));
    } else {
        assert(s.take(k) =~= s);
    }
}

/// `str::parse` for an unsigned integer type whose largest value is `max`.
pub(crate) fn parse_uint(s: &Vec<char>, max: u64) -> (r: Option<u64>)
    ensures
        match r {
            Some(n) => parse_uint_spec(s@, max as nat) == Some(n as nat),
            None => parse_uint_spec(s@, max as nat) is None,
        },
{
    let start: usize = if s.len() > 0 && s[0] == '+' {
        1
    } else {
        0
    };
    let ghost d = s@.skip(start as int);
    assert(d == if s@.len() > 0 && s@[0] == '+' {
        s@.skip(1)
    } else {
        s@
    }) by {
        if start == 0 {
            assert(s@.skip(0) =~= s@);
        }
    }
    if s.len() - start == 0 {
        return None;
    }
    let mut value: u128 = 0;
    let mut i = start;
    while i < s.len()
        invariant
            start <= i <= s@.len(),
            d == s@.skip(start as int),
            d.len() > 0,
            d == if s@.len() > 0 && s@[0] == '+' {
                s@.skip(1)
            } else {
                s@
            },
            forall|k: int| start <= k < i ==> is_digit(#[trigger] s@[k]),
            value == dec_value(s@.subrange(start as int, i as int)),
            value <= max,
        decreases s@.len() - i,
    {
        let c = s[i];
        if !('0' <= c && c <= '9') {
            assert(!is_digit(d[i - start]));
            return None;
        }
        assert(s@.subrange(start as int, i + 1).drop_last() =~= s@.subrange(start as int, i as int));
        let next = value * 10 + ((c as u32) - ('0' as u32)) as u128;
        i += 1;
        if next > max as u128 {
            proof {
                assert forall|k: int| 0 <= k < i - start implies is_digit(#[trigger] s@.subrange(
                    start as int,
                    i as int,
                )[k]) by {
                    assert(s@.subrange(start as int, i as int)[k] == s@[start + k]);
                }
                if all_digits(d) {
                    assert(d.take(i - start) =~= s@.subrange(start as int, i as int));
                    lemma_dec_value_mono(d, i - start);
                }
            }
            return None;
        }
        value = next;
    }
    assert(s@.subrange(start as int, s@.len() as int) =~= d);
    assert(all_digits(d)) by {
        assert forall|k: int| 0 <= k < d.len() implies is_digit(#[trigger] d[k]) by {
            assert(d[k] == s@[start + k]);
        }
    }
    Some(value as u64)
}

pub open spec fn font_weight_of(val: Seq<char>) -> Option<bool> {
    let v = lower_seq(trim(val));
    if v == "bold"@ || v == "bolder"@ {
        Some(true)
    } else if v == "normal"@ || v == "lighter"@ {
        Some(false)
    } else {
        match parse_uint_spec(v, u32::MAX as nat) {
            Some(n) => Some(n >= 600),
            None => None,
        }
    }
}

/// Parse a `font-weight` value: `bold` / `bolder` / numeric `>= 600` give true; `normal` /
/// `lighter` / numeric `< 600` give false; anything else gives `None` (leave inherited).
pub fn parse_font_weight(val: &str) -> (r: Option<bool>)
    ensures
        r == font_weight_of(val@),
{
    let v = lower(&trim_vec(&to_chars(val)));
    if eq_str(&v, "bold") || eq_str(&v, "bolder") {
        Some(true)
    } else if eq_str(&v, "normal") || eq_str(&v, "lighter") {
        Some(false)
    } else {
        match parse_uint(&v, 0xFFFF_FFFF) {
            Some(n) => Some(n >= 600),
            None => None,
        }
    }
}

/// The body of a function value `name(...)`: when `lower` starts with `name(` and `v` ends with
/// `)`, the text of `v` between them.
pub open spec fn func_body(lower: Seq<char>, v: Seq<char>, name: Seq<char>) -> Option<Seq<char>> {
    let prefix = name.push('(');
    if starts_with(lower, prefix) && v.len() > 0 && v.last() == ')' {
        Some(v.subrange(prefix.len() as int, v.len() - 1))
    } else {
        None
    }
}

/// If `lower` (the lower-cased value) starts with `name(` and `v` ends with `)`, return the inner
/// body (from `v`, in its own case).
pub fn strip_func<'a>(lower: &str, v: &'a str, name: &str) -> (r: Option<&'a str>)
    requires
        lower@ == lower_seq(v@),
    ensures
        match r {
            Some(b) => func_body(lower@, v@, name@) == Some(b@),
            None => func_body(lower@, v@, name@) is None,
        },
{
    let mut prefix = to_chars(name);
    prefix.push('(');
    let lv = to_chars(lower);
    let vv = to_chars(v);
    let n = vv.len();
    if has_prefix(&lv, &prefix) && n > 0 && vv[n - 1] == ')' {
        // `lower` and `v` have the same length, and the prefix ends in `(`, not `)`.
        assert(lv@.take(prefix@.len() as int)[prefix@.len() - 1] == lv@[prefix@.len() - 1]);
        assert(prefix@[prefix@.len() - 1] == '(');
        assert(lv@[prefix@.len() - 1] == '(');
        assert(lower_seq(v@)[n - 1] == ')');
        Some(v.substring_char(prefix.len(), n - 1))
    } else {
        None
    }
}

// ---------------------------------------------------------------------------------------------
// content
// ---------------------------------------------------------------------------------------------

/// The characters a decoded hex escape contributes: the code point when it is a Unicode scalar
/// value, else nothing.
pub open spec fn code_point_chars(cp: nat) -> Seq<char> {
    if scalar_value(cp) {
        seq![cp as char]
    } else {
        seq![]
    }
}

/// Decoding the minimal CSS string escapes of `content`: `\<hex>` (1-6 hex digits, optionally
/// ended by one space) becomes its code point (nothing when that is not a scalar value); `\c`
/// becomes `c`; a final lone backslash is kept.
pub open spec fn content_unescape(s: Seq<char>) -> Seq<char>
    decreases s.len(),
{
    if s.len() == 0 {
        seq![]
    } else if s[0] == '\\' && s.len() > 1 {
        let nx = s[1];
        if is_hex_digit(nx) {
            proof {
                lemma_hex_len_bound(s.drop_first(), 6);
            }
            let j: int = 1 + hex_len(s.drop_first(), 6) as int;
            let j2 = if j < s.len() && s[j] == ' ' {
                j + 1
            } else {
                j
            };
            code_point_chars(hex_value(s.subrange(1, j))) + content_unescape(s.skip(j2))
        } else {
            seq![nx] + content_unescape(s.skip(2))
        }
    } else {
        seq![s[0]] + content_unescape(s.drop_first())
    }
}

fn hex_val(c: char) -> (r: u32)
    requires
        is_hex_digit(c),
    ensures
        r == hex_digit_value(c),
        r < 16,
{
    if '0' <= c && c <= '9' {
        (c as u32) - ('0' as u32)
    } else if 'a' <= c && c <= 'f' {
        (c as u32) - ('a' as u32) + 10
    } else {
        (c as u32) - ('A' as u32) + 10
    }
}

/// Decode the minimal CSS string escapes used in `content`.
pub fn unescape_content_string(s: &str) -> (r: String)
    ensures
        r@ == content_unescape(s@),
{
    let chars = to_chars(s);
    let n = chars.len();
    let mut out = String::new();
    let mut i: usize = 0;
    assert(chars@.skip(0) =~= chars@);
    while i < n
        invariant
            chars@ == s@,
            n == chars@.len(),
            0 <= i <= n,
            content_unescape(s@) == out@ + content_unescape(chars@.skip(i as int)),
        decreases n - i,
    {
        let ghost rest = chars@.skip(i as int);
        let ghost before = out@;
        if chars[i] == '\\' && i + 1 < n {
            let next = chars[i + 1];
            assert(rest[0] == '\\' && rest[1] == next);
            if is_ascii_hexdigit(next) {
                // Up to 6 hex digits, optionally followed by a single space.
                let start = i + 1;
                let ghost h = hex_len(rest.drop_first(), 6) as int;
                proof {
                    lemma_hex_len_bound(rest.drop_first(), 6);
                    assert(rest.drop_first() =~= chars@.skip(start as int));
                }
                let mut j = start;
                let mut cp: u32 = 0;
                let mut count: usize = 0;
                while j < n && count < 6 && is_ascii_hexdigit(chars[j])
                    invariant
                        n == chars@.len(),
                        start < n,
                        start <= j <= n,
                        count == j - start,
                        count <= 6,
                        h == hex_len(chars@.skip(start as int), 6),
                        h == count + hex_len(chars@.skip(j as int), (6 - count) as nat),
                        cp == hex_value(chars@.subrange(start as int, j as int)),
                        cp < pow16(count as nat),
                    decreases n - j,
                {
                    let d = hex_val(chars[j]);
                    assert(chars@.skip(j as int)[0] == chars@[j as int]);
                    assert(chars@.skip(j as int).drop_first() =~= chars@.skip(j + 1));
                    assert(chars@.subrange(start as int, j + 1).drop_last() =~= chars@.subrange(
                        start as int,
                        j as int,
                    ));
                    proof {
                        reveal_with_fuel(pow16, 7);
                    }
                    cp = cp * 16 + d;
                    count += 1;
                    j += 1;
                }
                assert(hex_len(chars@.skip(j as int), (6 - count) as nat) == 0);
                if j < n && chars[j] == ' ' {
                    j += 1;
                }
                if let Some(c) = char_from_u32(cp) {
                    push_char(&mut out, c);
                }
                assert(chars@.subrange(start as int, start + h) =~= rest.subrange(1, 1 + h));
                assert(rest.skip(
                    if 1 + h < rest.len() && rest[1 + h] == ' ' {
                        2 + h
                    } else {
                        1 + h
                    },
                ) =~= chars@.skip(j as int));
                assert(out@ =~= before + code_point_chars(hex_value(rest.subrange(1, 1 + h))));
                i = j;
            } else {
                // A literal escape (`\"`, `\\`, ...): the escaped char.
                push_char(&mut out, next);
                assert(rest.skip(2) =~= chars@.skip(i + 2));
                i += 2;
            }
        } else {
            push_char(&mut out, chars[i]);
            assert(rest[0] == chars@[i as int]);
            assert(rest.drop_first() =~= chars@.skip(i + 1));
            i += 1;
        }
        assert(content_unescape(s@) == out@ + content_unescape(chars@.skip(i as int)));
    }
    assert(chars@.skip(n as int) =~= Seq::<char>::empty());
    out
}

pub open spec fn quoted_by(v: Seq<char>, q: char) -> bool {
    v.len() >= 2 && v[0] == q && v.last() == q
}

/// What a `content` value makes a pseudo-element render: `None` for `none`/`normal`; a quoted
/// string decoded; `attr(name)` kept verbatim; anything else an empty box.
pub open spec fn content_of(val: Seq<char>) -> Option<Seq<char>> {
    let v = trim(val);
    let l = lower_seq(v);
    if l == "none"@ || l == "normal"@ {
        None
    } else if quoted_by(v, '"') || quoted_by(v, '\'') {
        Some(content_unescape(v.subrange(1, v.len() - 1)))
    } else if starts_with(l, "attr("@) && v.len() > 0 && v.last() == ')' {
        Some(v)
    } else {
        Some(seq![])
    }
}

/// Parse a `content` value into the string a pseudo-element should render, or `None` when the
/// value generates no box.
pub fn parse_content(val: &str) -> (r: Option<String>)
    ensures
        match r {
            Some(t) => content_of(val@) == Some(t@),
            None => content_of(val@) is None,
        },
{
    let v = trim_vec(&to_chars(val));
    let l = lower(&v);
    if eq_str(&l, "none") || eq_str(&l, "normal") {
        return None;
    }
    let n = v.len();
    if n >= 2 && ((v[0] == '"' && v[n - 1] == '"') || (v[0] == '\'' && v[n - 1] == '\'')) {
        let inner = string_from(slice_vec(&v, 1, n - 1).as_slice());
        return Some(unescape_content_string(inner.as_str()));
    }
    let attr_prefix = to_chars("attr(");
    if has_prefix(&l, &attr_prefix) && n > 0 && v[n - 1] == ')' {
        return Some(string_from(v.as_slice()));
    }
    Some(String::new())
}

/// The text a parsed `content` value resolves to on an element with attributes `attrs`: for
/// `attr(name)`, the attribute's value (matched exactly on the lower-cased name, else ignoring
/// ASCII case), or nothing; otherwise the content itself.
pub open spec fn content_attr(content: Seq<char>, attrs: Seq<(String, String)>) -> Seq<char> {
    let l = lower_seq(content);
    if starts_with(l, "attr("@) && content.len() > 0 && content.last() == ')' {
        let name = trim(content.subrange(5, content.len() - 1));
        match attr_value(attrs, lower_seq(name)) {
            Some(v) => v,
            None => match attr_value_ci(attrs, name) {
                Some(v) => v,
                None => seq![],
            },
        }
    } else {
        content
    }
}

/// Resolve a parsed `content` string against the originating element: an `attr(name)` reference
/// becomes the element's `name` attribute value (or the empty string when absent); anything else
/// is returned unchanged.
pub fn resolve_content_attr(content: &str, el: &ElementData) -> (r: String)
    ensures
        r@ == content_attr(content@, el.attrs@),
{
    proof {
        reveal_strlit("attr(");
    }
    let c = to_chars(content);
    let l = lower(&c);
    let n = c.len();
    let attr_prefix = to_chars("attr(");
    if has_prefix(&l, &attr_prefix) && n > 0 && c[n - 1] == ')' {
        assert(l@.take(5)[4] == l@[4]);
        assert(l@[4] == '(');
        assert(lower_seq(c@)[n - 1] == ')');
        let name = trim_vec(slice_vec(&c, 5, n - 1).as_slice());
        let lname = string_from(lower(&name).as_slice());
        match crate::dom::get_attr(&el.attrs, lname.as_str()) {
            Some(v) => {
                return string_of(v);
            },
            None => {},
        }
        let name_s = string_from(name.as_slice());
        return match crate::selector::find_attr_ci(&el.attrs, name_s.as_str()) {
            Some(i) => el.attrs[i].1.clone(),
            None => String::new(),
        };
    }
    string_of(content)
}

// ---------------------------------------------------------------------------------------------
// text-decoration
// ---------------------------------------------------------------------------------------------

/// The style after applying a `text-decoration` value: `none` among its words clears all three
/// lines; otherwise each of `underline`, `line-through`, `overline` present sets its line.
pub open spec fn decorated(style: ComputedStyle, val: Seq<char>) -> ComputedStyle {
    let toks = split_ws(lower_seq(val));
    if toks.contains("none"@) {
        ComputedStyle { underline: false, line_through: false, overline: false, ..style }
    } else {
        ComputedStyle {
            underline: style.underline || toks.contains("underline"@),
            line_through: style.line_through || toks.contains("line-through"@),
            overline: style.overline || toks.contains("overline"@),
            ..style
        }
    }
}

fn words_contain(words: &Vec<Vec<char>>, w: &str) -> (r: bool)
    ensures
        r == views(words@).contains(w@),
{
    let wv = to_chars(w);
    let mut i: usize = 0;
    while i < words.len()
        invariant
            wv@ == w@,
            0 <= i <= words@.len(),
            forall|j: int| 0 <= j < i ==> views(words@)[j] != w@,
        decreases words@.len() - i,
    {
        if seq_eq(&words[i], &wv) {
            assert(views(words@)[i as int] == w@);
            return true;
        }
        i += 1;
    }
    false
}

/// Apply a `text-decoration` / `text-decoration-line` value (color and style words are ignored).
pub fn apply_text_decoration(style: &mut ComputedStyle, val: &str)
    ensures
        *final(style) == decorated(*old(style), val@),
{
    let toks = split_whitespace(&lowered(val));
    let none = words_contain(&toks, "none");
    let under = words_contain(&toks, "underline");
    let through = words_contain(&toks, "line-through");
    let over = words_contain(&toks, "overline");
    if none {
        style.underline = false;
        style.line_through = false;
        style.overline = false;
    } else {
        style.underline = style.underline || under;
        style.line_through = style.line_through || through;
        style.overline = style.overline || over;
    }
}

// ---------------------------------------------------------------------------------------------
// Splitting
// ---------------------------------------------------------------------------------------------

/// Splitting on commas outside parentheses (a `)` never takes the depth below zero): the
/// trimmed non-empty parts so far, the part being read, and the depth.
pub open spec fn top_commas_state(s: Seq<char>) -> (Seq<Seq<char>>, Seq<char>, nat)
    decreases s.len(),
{
    if s.len() == 0 {
        (seq![], seq![], 0)
    } else {
        let (parts, cur, depth) = top_commas_state(s.drop_last());
        let c = s.last();
        if c == '(' {
            (parts, cur.push(c), depth + 1)
        } else if c == ')' {
            (parts, cur.push(c), if depth > 0 {
                (depth - 1) as nat
            } else {
                0
            })
        } else if c == ',' && depth == 0 {
            (if trim(cur).len() > 0 {
                parts.push(trim(cur))
            } else {
                parts
            }, seq![], depth)
        } else {
            (parts, cur.push(c), depth)
        }
    }
}

/// The trimmed, non-empty parts of `s` between commas outside parentheses.
pub open spec fn top_commas(s: Seq<char>) -> Seq<Seq<char>> {
    let (parts, cur, _) = top_commas_state(s);
    if trim(cur).len() > 0 {
        parts.push(trim(cur))
    } else {
        parts
    }
}

pub open spec fn strings_view(v: Seq<String>) -> Seq<Seq<char>> {
    v.map_values(|p: String| p@)
}

fn push_trimmed(parts: &mut Vec<String>, cur: &Vec<char>)
    ensures
        strings_view(final(parts)@) == if trim(cur@).len() > 0 {
            strings_view(old(parts)@).push(trim(cur@))
        } else {
            strings_view(old(parts)@)
        },
{
    let t = trim_vec(cur);
    if t.len() > 0 {
        let p = string_from(t.as_slice());
        parts.push(p);
        assert(strings_view(parts@) =~= strings_view(old(parts)@).push(p@));
    }
}

/// Split `s` on top-level commas (not inside parens); returns the trimmed non-empty parts.
pub fn split_top_commas(s: &str) -> (r: Vec<String>)
    ensures
        strings_view(r@) == top_commas(s@),
{
    let chars = to_chars(s);
    let mut parts: Vec<String> = Vec::new();
    let mut cur: Vec<char> = Vec::new();
    let mut depth: usize = 0;
    let mut i: usize = 0;
    while i < chars.len()
        invariant
            chars@ == s@,
            0 <= i <= chars@.len(),
            depth <= i,
            (strings_view(parts@), cur@, depth as nat) == top_commas_state(chars@.take(i as int)),
        decreases chars@.len() - i,
    {
        let c = chars[i];
        assert(chars@.take(i + 1).drop_last() =~= chars@.take(i as int));
        if c == '(' {
            depth += 1;
            cur.push(c);
        } else if c == ')' {
            if depth > 0 {
                depth -= 1;
            }
            cur.push(c);
        } else if c == ',' && depth == 0 {
            push_trimmed(&mut parts, &cur);
            cur = Vec::new();
        } else {
            cur.push(c);
        }
        i += 1;
    }
    assert(chars@.take(chars@.len() as int) =~= chars@);
    push_trimmed(&mut parts, &cur);
    parts
}

/// Splitting on whitespace outside parentheses: the tokens so far, the token being read, and
/// the parenthesis depth (a `)` never takes it below zero).
pub open spec fn paren_tokens_state(s: Seq<char>) -> (Seq<Seq<char>>, Seq<char>, nat)
    decreases s.len(),
{
    if s.len() == 0 {
        (seq![], seq![], 0)
    } else {
        let (done, cur, depth) = paren_tokens_state(s.drop_last());
        let c = s.last();
        if is_ws(c) && depth == 0 {
            if cur.len() > 0 {
                (done.push(cur), seq![], depth)
            } else {
                (done, cur, depth)
            }
        } else {
            let d2: nat = if c == '(' {
                depth + 1
            } else if c == ')' {
                if depth > 0 {
                    (depth - 1) as nat
                } else {
                    0
                }
            } else {
                depth
            };
            (done, cur.push(c), d2)
        }
    }
}

/// The tokens of `s`: whitespace separates them except inside balanced parentheses.
pub open spec fn paren_tokens(s: Seq<char>) -> Seq<Seq<char>> {
    let (done, cur, _) = paren_tokens_state(s);
    if cur.len() > 0 {
        done.push(cur)
    } else {
        done
    }
}

/// Tokenize a value on whitespace, keeping balanced parens together (so functional colors with
/// internal spaces/commas survive as one token).
pub fn tokenize_paren_aware(s: &str) -> (r: Vec<String>)
    ensures
        strings_view(r@) == paren_tokens(s@),
{
    let chars = to_chars(s);
    let mut out: Vec<String> = Vec::new();
    let mut cur: Vec<char> = Vec::new();
    let mut depth: usize = 0;
    let mut i: usize = 0;
    while i < chars.len()
        invariant
            chars@ == s@,
            0 <= i <= chars@.len(),
            depth <= i,
            (strings_view(out@), cur@, depth as nat) == paren_tokens_state(chars@.take(i as int)),
        decreases chars@.len() - i,
    {
        let c = chars[i];
        assert(chars@.take(i + 1).drop_last() =~= chars@.take(i as int));
        if is_whitespace(c) && depth == 0 {
            if cur.len() > 0 {
                let tok = string_from(cur.as_slice());
                let ghost before = strings_view(out@);
                out.push(tok);
                assert(strings_view(out@) =~= before.push(cur@));
                cur = Vec::new();
            }
        } else {
            cur.push(c);
            if c == '(' {
                depth += 1;
            } else if c == ')' {
                if depth > 0 {
                    depth -= 1;
                }
            }
        }
        i += 1;
    }
    assert(chars@.take(chars@.len() as int) =~= chars@);
    if cur.len() > 0 {
        let tok = string_from(cur.as_slice());
        let ghost before = strings_view(out@);
        out.push(tok);
        assert(strings_view(out@) =~= before.push(cur@));
    }
    out
}

/// The first index at or after `i` where `p` occurs in `s`.
pub open spec fn find_from(s: Seq<char>, p: Seq<char>, i: int) -> Option<int>
    decreases s.len() + 1 - i,
{
    if i < 0 || i + p.len() > s.len() {
        None
    } else if s.subrange(i, i + p.len()) == p {
        Some(i)
    } else {
        find_from(s, p, i + 1)
    }
}

proof fn lemma_find_from(s: Seq<char>, p: Seq<char>, i: int)
    requires
        0 <= i,
    ensures
        find_from(s, p, i) matches Some(k) ==> i <= k && k + p.len() <= s.len(),
    decreases s.len() + 1 - i,
{
    if !(i + p.len() > s.len()) && s.subrange(i, i + p.len()) != p {
        lemma_find_from(s, p, i + 1);
    }
}

fn find_chars(s: &Vec<char>, p: &Vec<char>) -> (r: Option<usize>)
    ensures
        match r {
            Some(k) => find_from(s@, p@, 0) == Some(k as int),
            None => find_from(s@, p@, 0) is None,
        },
{
    let n = s.len();
    let m = p.len();
    if m > n {
        return None;
    }
    let mut i: usize = 0;
    while i <= n - m
        invariant
            m <= n,
            n == s@.len(),
            m == p@.len(),
            0 <= i <= n - m + 1,
            find_from(s@, p@, 0) == find_from(s@, p@, i as int),
        decreases n - m + 1 - i,
    {
        let piece = slice_vec(s, i, i + m);
        if seq_eq(&piece, p) {
            return Some(i);
        }
        if i == n - m {
            assert(find_from(s@, p@, i + 1) is None);
            return None;
        }
        i += 1;
    }
    None
}

/// The first `url(...)` source in a CSS value, with surrounding quotes stripped; `None` when
/// there is none or it is empty.
pub open spec fn css_url_of(val: Seq<char>) -> Option<Seq<char>> {
    match find_from(lower_seq(val), "url("@, 0) {
        None => None,
        Some(start) => {
            let rest = val.skip(start + 4);
            match first_char_index(rest, ')') {
                None => None,
                Some(close) => {
                    let raw = trim(rest.take(close));
                    let raw2 = if quoted_by(raw, '"') || quoted_by(raw, '\'') {
                        raw.subrange(1, raw.len() - 1)
                    } else {
                        raw
                    };
                    if raw2.len() == 0 {
                        None
                    } else {
                        Some(raw2)
                    }
                },
            }
        },
    }
}

fn first_paren(v: &Vec<char>) -> (r: Option<usize>)
    ensures
        match r {
            Some(k) => first_char_index(v@, ')') == Some(k as int),
            None => first_char_index(v@, ')') is None,
        },
{
    let mut k: usize = 0;
    assert(v@.skip(0) =~= v@);
    while k < v.len()
        invariant
            0 <= k <= v@.len(),
            first_char_index(v@, ')') == match first_char_index(v@.skip(k as int), ')') {
                Some(j) => Some(j + k),
                None => None,
            },
        decreases v@.len() - k,
    {
        assert(v@.skip(k as int).drop_first() =~= v@.skip(k + 1));
        if v[k] == ')' {
            return Some(k);
        }
        k += 1;
    }
    None
}

/// Extract the first `url(...)` source from a CSS value (surrounding quotes stripped).
pub fn extract_css_url(val: &str) -> (r: Option<String>)
    ensures
        match r {
            Some(u) => css_url_of(val@) == Some(u@),
            None => css_url_of(val@) is None,
        },
{
    proof {
        reveal_strlit("url(");
    }
    let v = to_chars(val);
    let l = lower(&v);
    let start = match find_chars(&l, &to_chars("url(")) {
        Some(k) => k,
        None => {
            return None;
        },
    };
    proof {
        lemma_find_from(l@, "url("@, 0);
        assert("url("@.len() == 4);
        assert(l@.len() == v@.len());
    }
    let vn = v.len();
    assert(start + 4 <= vn);
    let rest = slice_vec(&v, start + 4, vn);
    assert(rest@ =~= v@.skip(start + 4));
    let close = match first_paren(&rest) {
        Some(k) => k,
        None => {
            return None;
        },
    };
    proof {
        crate::selector::lemma_first_char_index(rest@, ')');
    }
    let raw = trim_vec(slice_vec(&rest, 0, close).as_slice());
    assert(rest@.subrange(0, close as int) =~= rest@.take(close as int));
    let n = raw.len();
    let raw2 = if n >= 2 && ((raw[0] == '"' && raw[n - 1] == '"') || (raw[0] == '\'' && raw[n
        - 1] == '\'')) {
        slice_vec(&raw, 1, n - 1)
    } else {
        raw
    };
    if raw2.len() == 0 {
        None
    } else {
        Some(string_from(raw2.as_slice()))
    }
}

/// What `url::Url::join` gives when joining `input` onto the URL that `url::Url::parse` reads
/// from `base`, serialized; `None` when either step fails.
pub uninterp spec fn url_joined(base: Seq<char>, input: Seq<char>) -> Option<Seq<char>>;

/// `url::Url::join` on the URL parsed from `base` (its base argument converted with
/// `url::Url::parse`), serialized back to a string. The contract claims only that the outcome is
/// a fixed function of the two strings: it names it and does not state it.
#[verifier::external_body]
fn url_join(base: &str, input: &str) -> (r: Option<String>)
    ensures
        match r {
            Some(s) => url_joined(base@, input@) == Some(s@),
            None => url_joined(base@, input@) is None,
        },
{
    let b = match url::Url::parse(base) {
        Ok(b) => b,
        Err(_) => return None,
    };
    match b.join(input) {
        Ok(j) => Some(String::from(j)),
        Err(_) => None,
    }
}

/// The URL a stylesheet's `url(...)` value resolves to: `data:` URLs, and anything without a
/// base, stay as written (trimmed); otherwise the join onto the base, or the trimmed input when
/// the join fails.
pub open spec fn css_url_resolved(url: Seq<char>, base: Option<Seq<char>>) -> Seq<char> {
    let t = trim(url);
    if starts_with(lower_seq(t), "data:"@) {
        t
    } else {
        match base {
            None => t,
            Some(b) => resolved_or_spec(url_joined(b, t), t),
        }
    }
}

pub open spec fn resolved_or_spec(joined: Option<Seq<char>>, fallback: Seq<char>) -> Seq<char> {
    match joined {
        Some(j) => j,
        None => fallback,
    }
}

/// The outcome of resolving a URL against a base: the joined URL when the join succeeded, else
/// the input as written.
pub fn resolved_or(joined: Option<String>, fallback: &str) -> (r: String)
    ensures
        r@ == resolved_or_spec(
            match joined {
                Some(j) => Some(j@),
                None => None,
            },
            fallback@,
        ),
{
    match joined {
        Some(j) => j,
        None => string_of(fallback),
    }
}

/// Resolve a relative CSS `url(...)` value against the stylesheet's `base` URL. `data:` URLs and
/// anything that fails to resolve (no base, or a base that is not a valid absolute URL) are
/// returned unchanged (trimmed).
pub fn resolve_css_url(url: &str, base: Option<&str>) -> (r: String)
    ensures
        r@ == css_url_resolved(
            url@,
            match base {
                Some(b) => Some(b@),
                None => None,
            },
        ),
{
    proof {
        reveal_strlit("data:");
    }
    let t = string_from(trim_vec(&to_chars(url)).as_slice());
    if has_prefix(&lower(&to_chars(t.as_str())), &to_chars("data:")) {
        return t;
    }
    let base = match base {
        Some(b) => b,
        None => {
            return t;
        },
    };
    resolved_or(url_join(base, t.as_str()), t.as_str())
}

/// Split a transform value into `(function_name_lowercased, args)` pairs.
pub open spec fn skip_seps(s: Seq<char>, i: int) -> int
    decreases s.len() - i,
{
    if i < 0 || i >= s.len() || !(is_ws(s[i]) || s[i] == ',') {
        i
    } else {
        skip_seps(s, i + 1)
    }
}

pub open spec fn open_paren_from(s: Seq<char>, i: int) -> int
    decreases s.len() - i,
{
    if i < 0 || i >= s.len() || s[i] == '(' {
        i
    } else {
        open_paren_from(s, i + 1)
    }
}

pub proof fn lemma_scan_bounds(s: Seq<char>, i: int)
    requires
        0 <= i <= s.len(),
    ensures
        i <= skip_seps(s, i) <= s.len(),
        i <= open_paren_from(s, i) <= s.len(),
        open_paren_from(s, i) < s.len() ==> s[open_paren_from(s, i)] == '(',
    decreases s.len() - i,
{
    if i < s.len() {
        if is_ws(s[i]) || s[i] == ',' {
            lemma_scan_bounds(s, i + 1);
        } else if s[i] != '(' {
            lemma_scan_bounds(s, i + 1);
        } else {
            lemma_scan_bounds(s, i + 1);
        }
    }
}

/// The `(name, args)` pairs of the transform functions of `s` from position `i`.
pub open spec fn transform_fns_from(s: Seq<char>, i: int) -> Seq<(Seq<char>, Seq<char>)>
    decreases s.len() + 1 - i,
{
    if i < 0 || i > s.len() {
        seq![]
    } else {
        proof {
            lemma_scan_bounds(s, i);
            lemma_scan_bounds(s, skip_seps(s, i));
        }
        let i1 = skip_seps(s, i);
        let p = open_paren_from(s, i1);
        if p >= s.len() {
            seq![]
        } else {
            proof {
                lemma_close_paren(s, p + 1, 1);
            }
            let name = lower_seq(trim(s.subrange(i1, p)));
            let j = close_paren(s, p + 1, 1);
            let args = s.subrange(p + 1, j);
            let rest = transform_fns_from(s, j + 1);
            if name.len() > 0 {
                seq![(name, args)] + rest
            } else {
                rest
            }
        }
    }
}

pub open spec fn pairs_view(v: Seq<(String, String)>) -> Seq<(Seq<char>, Seq<char>)> {
    v.map_values(|p: (String, String)| (p.0@, p.1@))
}

/// Split a transform value into `(function_name_lowercased, args_string)` pairs.
pub fn transform_functions(s: &str) -> (r: Vec<(String, String)>)
    ensures
        pairs_view(r@) == transform_fns_from(s@, 0),
{
    let chars = to_chars(s);
    let n = chars.len();
    let mut out: Vec<(String, String)> = Vec::new();
    let mut i: usize = 0;
    while i < n
        invariant
            chars@ == s@,
            n == chars@.len(),
            0 <= i <= n,
            transform_fns_from(s@, 0) == pairs_view(out@) + transform_fns_from(s@, i as int),
        decreases n - i,
    {
        let ghost i0 = i as int;
        let ghost before = pairs_view(out@);
        proof {
            lemma_scan_bounds(s@, i0);
            lemma_scan_bounds(s@, skip_seps(s@, i0));
        }
        while i < n && (is_whitespace(chars[i]) || chars[i] == ',')
            invariant
                chars@ == s@,
                n == chars@.len(),
                i0 <= i <= n,
                skip_seps(s@, i0) == skip_seps(s@, i as int),
            decreases n - i,
        {
            i += 1;
        }
        let name_start = i;
        while i < n && chars[i] != '('
            invariant
                chars@ == s@,
                n == chars@.len(),
                name_start <= i <= n,
                open_paren_from(s@, name_start as int) == open_paren_from(s@, i as int),
            decreases n - i,
        {
            i += 1;
        }
        if i >= n {
            assert(transform_fns_from(s@, i0) =~= Seq::<(Seq<char>, Seq<char>)>::empty());
            assert(pairs_view(out@) + transform_fns_from(s@, n as int) =~= pairs_view(out@));
            i = n;
            continue;
        }
        let name = lower(&trim_vec(slice_vec(&chars, name_start, i).as_slice()));
        i += 1;
        let args_start = i;
        let mut depth: usize = 1;
        proof {
            lemma_close_paren(s@, args_start as int, 1);
        }
        while i < n
            invariant_except_break
                1 <= depth,
            invariant
                n == chars@.len(),
                chars@ == s@,
                1 <= args_start <= i <= n,
                depth <= i + 1 - args_start,
                depth > 0 ==> close_paren(s@, args_start as int, 1) == close_paren(
                    s@,
                    i as int,
                    depth as int,
                ),
            ensures
                i <= n,
                close_paren(s@, args_start as int, 1) == i,
            decreases n - i,
        {
            if chars[i] == '(' {
                depth += 1;
            } else if chars[i] == ')' {
                depth -= 1;
            }
            if depth == 0 {
                break;
            }
            i += 1;
        }
        let args = string_from(slice_vec(&chars, args_start, i).as_slice());
        let ghost j = i as int;
        let ghost nm = name@;
        if name.len() > 0 {
            out.push((string_from(name.as_slice()), args));
            assert(pairs_view(out@) =~= before.push((nm, args@)));
        }
        assert(transform_fns_from(s@, j + 1) == transform_fns_from(
            s@,
            if j < n {
                j + 1
            } else {
                n as int
            },
        ));
        if i < n {
            i += 1;
        } else {
            i = n;
        }
        assert(pairs_view(out@) + transform_fns_from(s@, i as int) =~= before + transform_fns_from(
            s@,
            i0,
        ));
    }
    assert(pairs_view(out@) + transform_fns_from(s@, n as int) =~= pairs_view(out@));
    out
}

} // verus!
