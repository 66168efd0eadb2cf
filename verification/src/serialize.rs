//! CSSOM serialization of `font-family` lists, CSS `<string>`s and keyword values.

use vstd::prelude::*;
use crate::style::JustifyContent;
use crate::text::{
    is_ws, is_alpha, is_alnum, is_digit, is_hex_digit, is_upper, is_lower, lower_seq, trim,
    ws_split_state, trim_start, trim_end,
    split_ws, views, to_chars, push_char, push_str, push_chars, lower, eq_str, is_whitespace,
    is_ascii_alphabetic, is_ascii_alphanumeric, is_ascii_hexdigit, trim_vec, split_whitespace,
    slice_vec, string_from,
};

verus! {

broadcast use vstd::string::group_string_axioms;

// ---------------------------------------------------------------------------------------------
// Joining and splitting
// ---------------------------------------------------------------------------------------------

/// The parts joined with `sep` between consecutive parts.
pub open spec fn join(parts: Seq<Seq<char>>, sep: Seq<char>) -> Seq<char>
    decreases parts.len(),
{
    if parts.len() == 0 {
        seq![]
    } else if parts.len() == 1 {
        parts[0]
    } else {
        join(parts.drop_last(), sep) + sep + parts.last()
    }
}

/// Join character vectors with `sep`.
pub fn join_chars(parts: &Vec<Vec<char>>, sep: &str) -> (r: Vec<char>)
    ensures
        r@ == join(views(parts@), sep@),
{
    let sepv = to_chars(sep);
    let mut out: Vec<char> = Vec::new();
    let mut i: usize = 0;
    while i < parts.len()
        invariant
            sepv@ == sep@,
            0 <= i <= parts@.len(),
            out@ == join(views(parts@.take(i as int)), sep@),
        decreases parts@.len() - i,
    {
        if i > 0 {
            let mut j: usize = 0;
            let ghost before = out@;
            while j < sepv.len()
                invariant
                    0 <= j <= sepv@.len(),
                    out@ == before + sepv@.take(j as int),
                decreases sepv@.len() - j,
            {
                out.push(sepv[j]);
                j += 1;
                assert(out@ =~= before + sepv@.take(j as int));
            }
            assert(sepv@.take(sepv@.len() as int) =~= sepv@);
        }
        let p = &parts[i];
        let ghost before = out@;
        let mut j: usize = 0;
        while j < p.len()
            invariant
                0 <= j <= p@.len(),
                out@ == before + p@.take(j as int),
            decreases p@.len() - j,
        {
            out.push(p[j]);
            j += 1;
            assert(out@ =~= before + p@.take(j as int));
        }
        assert(p@.take(p@.len() as int) =~= p@);
        assert(views(parts@.take(i + 1)).drop_last() =~= views(parts@.take(i as int)));
        assert(views(parts@.take(i + 1)).last() == p@);
        i += 1;
    }
    assert(parts@.take(parts@.len() as int) =~= parts@);
    out
}

/// Splitting on every occurrence of `sep`: the finished parts and the part being read.
pub open spec fn split_on_state(s: Seq<char>, sep: char) -> (Seq<Seq<char>>, Seq<char>)
    decreases s.len(),
{
    if s.len() == 0 {
        (seq![], seq![])
    } else {
        let (parts, cur) = split_on_state(s.drop_last(), sep);
        if s.last() == sep {
            (parts.push(cur), seq![])
        } else {
            (parts, cur.push(s.last()))
        }
    }
}

/// `str::split(sep)` for a single character: always at least one (possibly empty) part.
pub open spec fn split_on(s: Seq<char>, sep: char) -> Seq<Seq<char>> {
    let (parts, cur) = split_on_state(s, sep);
    parts.push(cur)
}

pub fn split_on_char(v: &Vec<char>, sep: char) -> (r: Vec<Vec<char>>)
    ensures
        views(r@) == split_on(v@, sep),
{
    let mut parts: Vec<Vec<char>> = Vec::new();
    let mut cur: Vec<char> = Vec::new();
    let mut i: usize = 0;
    while i < v.len()
        invariant
            0 <= i <= v@.len(),
            (views(parts@), cur@) == split_on_state(v@.take(i as int), sep),
        decreases v@.len() - i,
    {
        assert(v@.take(i + 1).drop_last() =~= v@.take(i as int));
        if v[i] == sep {
            let ghost before = views(parts@);
            let w = cur;
            cur = Vec::new();
            parts.push(w);
            assert(views(parts@) =~= before.push(w@));
        } else {
            cur.push(v[i]);
        }
        i += 1;
    }
    assert(v@.take(v@.len() as int) =~= v@);
    let ghost before = views(parts@);
    parts.push(cur);
    assert(views(parts@) =~= before.push(cur@));
    parts
}

/// The state of the top-level comma scanner: parenthesis depth, the open quote, and whether the
/// previous character inside the quote was an escaping backslash.
pub type Scan = (nat, Option<char>, bool);

/// The scanner's state at the start of a value: outside parentheses and quotes.
pub open spec fn scan_start() -> Scan {
    (0nat, None, false)
}

/// A comma at top level, where the value is split.
pub open spec fn is_cut(st: Scan, c: char) -> bool {
    st.1 is None && st.0 == 0 && c == ','
}

/// One character through the scanner. Inside a quote a backslash escapes the next character,
/// so an escaped quote does not close the string.
pub open spec fn scan_step(st: Scan, c: char) -> Scan {
    let (depth, quote, esc) = st;
    match quote {
        Some(q) => if esc {
            (depth, quote, false)
        } else if c == '\\' {
            (depth, quote, true)
        } else if c == q {
            (depth, None, false)
        } else {
            st
        },
        None => if c == '"' || c == '\'' {
            (depth, Some(c), false)
        } else if c == '(' {
            (depth + 1, None, false)
        } else if c == ')' {
            (if depth > 0 {
                (depth - 1) as nat
            } else {
                0
            }, None, false)
        } else {
            st
        },
    }
}

/// The scanner's state after `t`, from `st`.
pub open spec fn scan(st: Scan, t: Seq<char>) -> Scan
    decreases t.len(),
{
    if t.len() == 0 {
        st
    } else {
        scan_step(scan(st, t.drop_last()), t.last())
    }
}

/// Whether scanning `t` from `st` meets a top-level comma.
pub open spec fn cuts(st: Scan, t: Seq<char>) -> bool
    decreases t.len(),
{
    t.len() > 0 && (cuts(st, t.drop_last()) || is_cut(scan(st, t.drop_last()), t.last()))
}

/// Splitting on commas that are neither inside parentheses nor inside quotes: the finished
/// parts, the part being read, and the scanner state.
pub open spec fn comma_state(s: Seq<char>) -> (Seq<Seq<char>>, Seq<char>, Scan)
    decreases s.len(),
{
    if s.len() == 0 {
        (seq![], seq![], scan_start())
    } else {
        let (parts, buf, st) = comma_state(s.drop_last());
        let c = s.last();
        if is_cut(st, c) {
            (parts.push(buf), seq![], st)
        } else {
            (parts, buf.push(c), scan_step(st, c))
        }
    }
}

/// The top-level comma-separated parts of `s` (always at least one).
pub open spec fn split_commas(s: Seq<char>) -> Seq<Seq<char>> {
    let (parts, buf, _) = comma_state(s);
    parts.push(buf)
}

/// Split a string on top-level commas (not inside parens or quotes; inside quotes a backslash
/// escapes the next character, so an escaped quote does not end the string).
pub fn split_top_level_commas(s: &str) -> (r: Vec<String>)
    ensures
        r@.map_values(|p: String| p@) == split_commas(s@),
{
    let chars = to_chars(s);
    let mut out: Vec<String> = Vec::new();
    let mut depth: usize = 0;
    let mut quote: Option<char> = None;
    let mut esc = false;
    let mut buf = String::new();
    let mut i: usize = 0;
    while i < chars.len()
        invariant
            chars@ == s@,
            0 <= i <= chars@.len(),
            depth <= i,
            (out@.map_values(|p: String| p@), buf@, (depth as nat, quote, esc)) == comma_state(
                chars@.take(i as int),
            ),
        decreases chars@.len() - i,
    {
        let c = chars[i];
        assert(chars@.take(i + 1).drop_last() =~= chars@.take(i as int));
        match quote {
            Some(q) => {
                push_char(&mut buf, c);
                if esc {
                    esc = false;
                } else if c == '\\' {
                    esc = true;
                } else if c == q {
                    quote = None;
                }
            },
            None => {
                if c == '"' || c == '\'' {
                    quote = Some(c);
                    esc = false;
                    push_char(&mut buf, c);
                } else if c == '(' {
                    depth += 1;
                    esc = false;
                    push_char(&mut buf, c);
                } else if c == ')' {
                    if depth > 0 {
                        depth -= 1;
                    }
                    esc = false;
                    push_char(&mut buf, c);
                } else if c == ',' && depth == 0 {
                    let ghost before = out@.map_values(|p: String| p@);
                    let done = buf;
                    buf = String::new();
                    out.push(done);
                    assert(out@.map_values(|p: String| p@) =~= before.push(done@));
                } else {
                    push_char(&mut buf, c);
                }
            },
        }
        i += 1;
    }
    assert(chars@.take(chars@.len() as int) =~= chars@);
    let ghost before = out@.map_values(|p: String| p@);
    let last = buf;
    out.push(last);
    assert(out@.map_values(|p: String| p@) =~= before.push(last@));
    out
}

// ---------------------------------------------------------------------------------------------
// CSS strings
// ---------------------------------------------------------------------------------------------

/// One character of a CSS `<string>` body: `"` and `\` are backslash-escaped.
pub open spec fn escape_char(c: char) -> Seq<char> {
    if c == '"' {
        seq!['\\', '"']
    } else if c == '\\' {
        seq!['\\', '\\']
    } else {
        seq![c]
    }
}

pub open spec fn css_escape(s: Seq<char>) -> Seq<char>
    decreases s.len(),
{
    if s.len() == 0 {
        seq![]
    } else {
        escape_char(s[0]) + css_escape(s.drop_first())
    }
}

/// `s` as a double-quoted CSS `<string>`.
pub open spec fn css_string(s: Seq<char>) -> Seq<char> {
    seq!['"'] + css_escape(s) + seq!['"']
}

/// Serialize a string value as a CSS `<string>` (double-quoted, with `"` and `\` escaped): the
/// form `getComputedStyle(...).content` returns for a pseudo-element's generated text.
pub fn serialize_css_string(s: &str) -> (r: String)
    ensures
        r@ == css_string(s@),
{
    let v = to_chars(s);
    let mut out = String::new();
    push_char(&mut out, '"');
    let mut i: usize = 0;
    assert(v@.skip(0) =~= v@);
    while i < v.len()
        invariant
            v@ == s@,
            0 <= i <= v@.len(),
            seq!['"'] + css_escape(s@) == out@ + css_escape(v@.skip(i as int)),
        decreases v@.len() - i,
    {
        let c = v[i];
        let ghost rest = v@.skip(i as int);
        assert(rest.drop_first() =~= v@.skip(i + 1));
        assert(rest[0] == c);
        let ghost before = out@;
        if c == '"' {
            push_char(&mut out, '\\');
            push_char(&mut out, '"');
        } else if c == '\\' {
            push_char(&mut out, '\\');
            push_char(&mut out, '\\');
        } else {
            push_char(&mut out, c);
        }
        assert(out@ =~= before + escape_char(c));
        assert(before + css_escape(rest) =~= out@ + css_escape(v@.skip(i + 1)));
        i += 1;
    }
    assert(v@.skip(v@.len() as int) =~= Seq::<char>::empty());
    push_char(&mut out, '"');
    out
}

/// The number of leading hex digits of `s`, at most `max`.
pub open spec fn hex_len(s: Seq<char>, max: nat) -> nat
    decreases max,
{
    if max == 0 || s.len() == 0 || !is_hex_digit(s[0]) {
        0
    } else {
        1 + hex_len(s.drop_first(), (max - 1) as nat)
    }
}

pub open spec fn hex_digit_value(c: char) -> nat {
    if is_digit(c) {
        (c as nat - '0' as nat) as nat
    } else if 'a' <= c && c <= 'f' {
        (c as nat - 'a' as nat + 10) as nat
    } else {
        (c as nat - 'A' as nat + 10) as nat
    }
}

/// The value of a run of hex digits.
pub open spec fn hex_value(s: Seq<char>) -> nat
    decreases s.len(),
{
    if s.len() == 0 {
        0
    } else {
        hex_value(s.drop_last()) * 16 + hex_digit_value(s.last())
    }
}

pub open spec fn scalar_value(cp: nat) -> bool {
    cp <= 0x10FFFF && !(0xD800 <= cp && cp <= 0xDFFF)
}

/// The character a `\<hex>` escape decodes to: U+FFFD for zero or for a value that is not a
/// Unicode scalar value.
pub open spec fn escaped_char(cp: nat) -> char {
    if cp == 0 || !scalar_value(cp) {
        '\u{FFFD}'
    } else {
        cp as char
    }
}

/// Decoding CSS string escapes: `\<hex>` (1-6 hex digits, with an optional single trailing
/// whitespace) becomes the code point; `\c` for any other character becomes `c`; a final lone
/// backslash is kept.
pub open spec fn unescape(s: Seq<char>) -> Seq<char>
    decreases s.len(),
{
    if s.len() == 0 {
        seq![]
    } else if s[0] == '\\' && s.len() > 1 {
        let nx = s[1];
        if is_hex_digit(nx) {
            proof {
                lemma_hex_len_bound(s.drop_first(), 6);
            }
            let h = hex_len(s.drop_first(), 6);
            let after: int = 1 + h as int;
            let skip = if after < s.len() && is_ws(s[after]) {
                1int
            } else {
                0int
            };
            seq![escaped_char(hex_value(s.subrange(1, after)))] + unescape(s.skip(after + skip))
        } else {
            seq![nx] + unescape(s.skip(2))
        }
    } else {
        seq![s[0]] + unescape(s.drop_first())
    }
}

/// `char::from_u32`: the character with code point `cp`, when that is a Unicode scalar value.
#[verifier::external_body]
pub(crate) fn char_from_u32(cp: u32) -> (r: Option<char>)
    ensures
        r == if scalar_value(cp as nat) {
            Some(cp as char)
        } else {
            None
        },
{
    char::from_u32(cp)
}

fn hex_digit(c: char) -> (r: u32)
    requires
        is_hex_digit(c),
    ensures
        r == hex_digit_value(c),
        r < 16,
{
    if '0' <= c && c <= '9' {
        (c as u32) - ('0' as u32)
    } else if 'a' <= c && c <= 'f' {
        (c as u32) - ('a' as u32) + 10
    } else {
        (c as u32) - ('A' as u32) + 10
    }
}

pub open spec fn pow16(n: nat) -> nat
    decreases n,
{
    if n == 0 {
        1
    } else {
        16 * pow16((n - 1) as nat)
    }
}

pub proof fn lemma_hex_len_bound(s: Seq<char>, max: nat)
    ensures
        hex_len(s, max) <= max,
        hex_len(s, max) <= s.len(),
        forall|j: int| 0 <= j < hex_len(s, max) ==> is_hex_digit(#[trigger] s[j]),
    decreases max,
{
    if !(max == 0 || s.len() == 0 || !is_hex_digit(s[0])) {
        lemma_hex_len_bound(s.drop_first(), (max - 1) as nat);
        assert forall|j: int| 0 <= j < hex_len(s, max) implies is_hex_digit(#[trigger] s[j]) by {
            if j > 0 {
                assert(s[j] == s.drop_first()[j - 1]);
            }
        }
    }
}

/// Decode CSS string escapes in `chars` to their literal characters.
pub fn unescape_css_string(chars: &[char]) -> (r: String)
    ensures
        r@ == unescape(chars@),
{
    let n = chars.len();
    let mut out = String::new();
    let mut i: usize = 0;
    assert(chars@.skip(0) =~= chars@);
    while i < n
        invariant
            n == chars@.len(),
            0 <= i <= n,
            unescape(chars@) == out@ + unescape(chars@.skip(i as int)),
        decreases n - i,
    {
        let ghost rest = chars@.skip(i as int);
        let ghost before = out@;
        if chars[i] == '\\' && i + 1 < n {
            let nx = chars[i + 1];
            assert(rest[0] == '\\' && rest[1] == nx);
            if is_ascii_hexdigit(nx) {
                let start = i + 1;
                let ghost h: int = hex_len(rest.drop_first(), 6) as int;
                proof {
                    lemma_hex_len_bound(rest.drop_first(), 6);
                    assert(rest.drop_first() =~= chars@.skip(start as int));
                }
                let mut cp: u32 = 0;
                let mut count: usize = 0;
                i = start;
                while i < n && count < 6 && is_ascii_hexdigit(chars[i])
                    invariant
                        n == chars@.len(),
                        start < n,
                        start <= i <= n,
                        count == i - start,
                        count <= 6,
                        h == hex_len(chars@.skip(start as int), 6),
                        h == count + hex_len(chars@.skip(i as int), (6 - count) as nat),
                        cp == hex_value(chars@.subrange(start as int, i as int)),
                        cp < pow16(count as nat),
                    decreases n - i,
                {
                    let d = hex_digit(chars[i]);
                    assert(chars@.skip(i as int)[0] == chars@[i as int]);
                    assert(chars@.skip(i as int).drop_first() =~= chars@.skip(i + 1));
                    assert(chars@.subrange(start as int, i + 1).drop_last() =~= chars@.subrange(
                        start as int,
                        i as int,
                    ));
                    proof {
                        reveal_with_fuel(pow16, 7);
                    }
                    cp = cp * 16 + d;
                    count += 1;
                    i += 1;
                }
                assert(hex_len(chars@.skip(i as int), (6 - count) as nat) == 0);
                assert(i == start + h);
                if i < n && is_whitespace(chars[i]) {
                    i += 1;
                }
                let ch = if cp == 0 {
                    '\u{FFFD}'
                } else {
                    match char_from_u32(cp) {
                        Some(c) => c,
                        None => '\u{FFFD}',
                    }
                };
                push_char(&mut out, ch);
                assert(chars@.subrange(start as int, start + h) =~= rest.subrange(1, 1 + h));
                assert(rest.skip(1 + h + (if 1 + h < rest.len() && is_ws(rest[1 + h]) {
                    1int
                } else {
                    0int
                })) =~= chars@.skip(i as int));
            } else {
                push_char(&mut out, nx);
                assert(rest.skip(2) =~= chars@.skip(i + 2));
                i += 2;
            }
        } else {
            push_char(&mut out, chars[i]);
            assert(rest[0] == chars@[i as int]);
            assert(rest.drop_first() =~= chars@.skip(i + 1));
            i += 1;
        }
        assert(unescape(chars@) == out@ + unescape(chars@.skip(i as int)));
    }
    assert(chars@.skip(n as int) =~= Seq::<char>::empty());
    out
}

// ---------------------------------------------------------------------------------------------
// font-family
// ---------------------------------------------------------------------------------------------

/// A quoted family name whose body is one of these must stay quoted (it would otherwise be read
/// as a generic family, a CSS-wide keyword or `default`).
pub open spec fn reserved_family(body: Seq<char>) -> bool {
    let t = lower_seq(body);
    ||| t == "serif"@ || t == "sans-serif"@ || t == "cursive"@ || t == "fantasy"@
    ||| t == "monospace"@ || t == "system-ui"@ || t == "math"@ || t == "ui-serif"@
    ||| t == "ui-sans-serif"@ || t == "ui-monospace"@ || t == "ui-rounded"@ || t == "default"@
    ||| t == "inherit"@ || t == "initial"@ || t == "unset"@ || t == "revert"@
    ||| t == "revert-layer"@
}

/// True if a quoted `<family-name>` body must stay quoted.
pub fn is_reserved_font_family_word(body: &str) -> (r: bool)
    ensures
        r == reserved_family(body@),
{
    let t = lower(&to_chars(body));
    eq_str(&t, "serif") || eq_str(&t, "sans-serif") || eq_str(&t, "cursive") || eq_str(
        &t,
        "fantasy",
    ) || eq_str(&t, "monospace") || eq_str(&t, "system-ui") || eq_str(&t, "math") || eq_str(
        &t,
        "ui-serif",
    ) || eq_str(&t, "ui-sans-serif") || eq_str(&t, "ui-monospace") || eq_str(&t, "ui-rounded")
        || eq_str(&t, "default") || eq_str(&t, "inherit") || eq_str(&t, "initial") || eq_str(
        &t,
        "unset",
    ) || eq_str(&t, "revert") || eq_str(&t, "revert-layer")
}

pub open spec fn ident_char(c: char) -> bool {
    is_alnum(c) || c == '_' || c == '-'
}

pub open spec fn ident_start(c: char) -> bool {
    is_alpha(c) || c == '_'
}

/// A CSS identifier word as the font-family serializer accepts it: an optional leading hyphen,
/// an ASCII letter or underscore, then ASCII letters, digits, underscores and hyphens.
pub open spec fn css_ident(w: Seq<char>) -> bool {
    if w.len() == 0 {
        false
    } else if w[0] == '-' {
        w.len() >= 2 && ident_start(w[1]) && forall|k: int| 2 <= k < w.len() ==> ident_char(#[trigger] w[k])
    } else {
        ident_start(w[0]) && forall|k: int| 1 <= k < w.len() ==> ident_char(#[trigger] w[k])
    }
}

pub fn is_css_ident_word(w: &str) -> (r: bool)
    ensures
        r == css_ident(w@),
{
    let v = to_chars(w);
    if v.len() == 0 {
        return false;
    }
    let mut k: usize = 1;
    let mut first = v[0];
    if first == '-' {
        if v.len() < 2 {
            return false;
        }
        first = v[1];
        k = 2;
    }
    if !(is_ascii_alphabetic(first) || first == '_') {
        return false;
    }
    while k < v.len()
        invariant
            v@ == w@,
            1 <= k <= v@.len(),
            v@[0] == '-' ==> k >= 2,
            forall|j: int|
                (if v@[0] == '-' {
                    2int
                } else {
                    1int
                }) <= j < k ==> ident_char(#[trigger] v@[j]),
        decreases v@.len() - k,
    {
        let c = v[k];
        if !(is_ascii_alphanumeric(c) || c == '_' || c == '-') {
            return false;
        }
        k += 1;
    }
    true
}

pub open spec fn all_idents(words: Seq<Seq<char>>) -> bool {
    forall|j: int| 0 <= j < words.len() ==> css_ident(#[trigger] words[j])
}

pub open spec fn all_ws(s: Seq<char>) -> bool {
    forall|k: int| 0 <= k < s.len() ==> is_ws(#[trigger] s[k])
}

/// The index of the quote `q` closing a string that opens at 0, honoring backslash escapes.
pub open spec fn close_quote(s: Seq<char>, q: char, k: int) -> Option<int>
    decreases s.len() - k,
{
    if k < 0 || k >= s.len() {
        None
    } else if s[k] == '\\' {
        if k + 2 >= s.len() {
            None
        } else {
            close_quote(s, q, k + 2)
        }
    } else if s[k] == q {
        Some(k)
    } else {
        close_quote(s, q, k + 1)
    }
}

/// The canonical form of one (trimmed, non-empty) family name, or `None` when it is invalid.
pub open spec fn family_piece(fam: Seq<char>) -> Option<Seq<char>> {
    let q = fam[0];
    if q == '"' || q == '\'' {
        match close_quote(fam, q, 1) {
            None => None,
            Some(k) => if !all_ws(fam.skip(k + 1)) {
                None
            } else {
                let body = unescape(fam.subrange(1, k));
                let words = split_on(body, ' ');
                if all_idents(words) && join(words, " "@) == body && !reserved_family(body) {
                    Some(body)
                } else {
                    Some(css_string(body))
                }
            },
        }
    } else {
        Some(join(split_ws(fam), " "@))
    }
}

/// The canonical family names of the comma parts, skipping empty ones; `None` if one is invalid.
pub open spec fn families(parts: Seq<Seq<char>>) -> Option<Seq<Seq<char>>>
    decreases parts.len(),
{
    if parts.len() == 0 {
        Some(seq![])
    } else {
        match families(parts.drop_last()) {
            None => None,
            Some(done) => {
                let fam = trim(parts.last());
                if fam.len() == 0 {
                    Some(done)
                } else {
                    match family_piece(fam) {
                        None => None,
                        Some(p) => Some(done.push(p)),
                    }
                }
            },
        }
    }
}

pub open spec fn serialized_font_family(val: Seq<char>) -> Option<Seq<char>> {
    match families(split_commas(val)) {
        Some(outs) => Some(join(outs, ", "@)),
        None => None,
    }
}

/// The canonical form of one trimmed, non-empty family name.
fn serialize_family(fam: &Vec<char>) -> (r: Option<Vec<char>>)
    requires
        fam@.len() > 0,
    ensures
        match r {
            Some(p) => family_piece(fam@) == Some(p@),
            None => family_piece(fam@) is None,
        },
{
    let n = fam.len();
    let first = fam[0];
    if first == '"' || first == '\'' {
        // Find the matching closing quote, honouring backslash escapes.
        let mut k: usize = 1;
        let mut closed = false;
        while k < n && !closed
            invariant
                n == fam@.len(),
                1 <= k,
                closed ==> k < n && close_quote(fam@, first, 1) == Some(k as int),
                !closed ==> close_quote(fam@, first, 1) == close_quote(fam@, first, k as int),
            decreases n - k, if closed { 0int } else { 1int },
        {
            if fam[k] == '\\' {
                if n - k <= 2 {
                    k = n;
                } else {
                    k += 2;
                }
            } else if fam[k] == first {
                closed = true;
            } else {
                k += 1;
            }
        }
        // Unterminated, or trailing non-whitespace after the closing quote: invalid list.
        if !closed {
            return None;
        }
        let mut t = k + 1;
        while t < n
            invariant
                n == fam@.len(),
                n > 0,
                first == fam@[0],
                first == '"' || first == '\'',
                k < n,
                close_quote(fam@, first, 1) == Some(k as int),
                k + 1 <= t <= n,
                forall|j: int| k + 1 <= j < t ==> is_ws(#[trigger] fam@[j]),
            decreases n - t,
        {
            if !is_whitespace(fam[t]) {
                assert(!is_ws(fam@.skip(k + 1)[t - k - 1]));
                return None;
            }
            t += 1;
        }
        assert forall|j: int| 0 <= j < fam@.skip(k + 1).len() implies is_ws(#[trigger] fam@.skip(k + 1)[j]) by {
            assert(fam@.skip(k + 1)[j] == fam@[k + 1 + j]);
        }
        // Decode escapes to the literal string value before re-escaping, so that serialization
        // of a single family is idempotent.
        let body = unescape_css_string(slice_vec(fam, 1, k).as_slice());
        let bv = to_chars(body.as_str());
        let words = split_on_char(&bv, ' ');
        let mut all_ident = words.len() > 0;
        let mut j: usize = 0;
        while j < words.len()
            invariant
                0 <= j <= words@.len(),
                all_ident == (words@.len() > 0 && forall|m: int|
                    0 <= m < j ==> css_ident(#[trigger] views(words@)[m])),
            decreases words@.len() - j,
        {
            let w = string_from(&words[j]);
            assert(views(words@)[j as int] == words@[j as int]@);
            if !is_css_ident_word(w.as_str()) {
                all_ident = false;
            }
            j += 1;
        }
        let joined = join_chars(&words, " ");
        let round_trips = all_ident && seq_equal(&joined, &bv);
        if round_trips && !is_reserved_font_family_word(body.as_str()) {
            Some(bv)
        } else {
            Some(to_chars(serialize_css_string(body.as_str()).as_str()))
        }
    } else {
        // Unquoted: collapse internal whitespace runs to single spaces.
        let words = split_whitespace(fam);
        Some(join_chars(&words, " "))
    }
}

fn seq_equal(a: &Vec<char>, b: &Vec<char>) -> (r: bool)
    ensures
        r == (a@ == b@),
{
    crate::text::seq_eq(a, b)
}

/// Serialize a `font-family` list to CSSOM canonical form: split on top-level commas, normalize
/// the quoting of each family name (unquote a quoted name only when its body is a
/// single-space-separated sequence of valid CSS identifiers that is not a reserved word), and
/// join with `, `.
///
/// Returns `None` when the list is invalid per the `<family-name>` grammar (an unterminated
/// quote, or anything but whitespace after a closing quote), so the caller drops the
/// declaration rather than storing a mangled value.
pub fn serialize_font_family(val: &str) -> (r: Option<String>)
    ensures
        match r {
            Some(s) => serialized_font_family(val@) == Some(s@),
            None => serialized_font_family(val@) is None,
        },
{
    let parts = split_top_level_commas(val);
    let ghost ps = parts@.map_values(|p: String| p@);
    let mut out: Vec<Vec<char>> = Vec::new();
    let mut i: usize = 0;
    while i < parts.len()
        invariant
            ps == parts@.map_values(|p: String| p@),
            ps == split_commas(val@),
            0 <= i <= parts@.len(),
            families(ps.take(i as int)) == Some(views(out@)),
        decreases parts@.len() - i,
    {
        assert(ps.take(i + 1).drop_last() =~= ps.take(i as int));
        assert(ps.take(i + 1).last() == parts@[i as int]@);
        let fam = trim_vec(&to_chars(parts[i].as_str()));
        if fam.len() > 0 {
            match serialize_family(&fam) {
                Some(p) => {
                    let ghost before = views(out@);
                    out.push(p);
                    assert(views(out@) =~= before.push(p@));
                },
                None => {
                    proof {
                        lemma_families_none_extends(ps, i as int + 1);
                    }
                    return None;
                },
            }
        }
        i += 1;
    }
    assert(ps.take(parts@.len() as int) =~= ps);
    Some(string_from(join_chars(&out, ", ").as_slice()))
}

proof fn lemma_families_none_extends(ps: Seq<Seq<char>>, k: int)
    requires
        0 <= k <= ps.len(),
        families(ps.take(k)) is None,
    ensures
        families(ps) is None,
    decreases ps.len() - k,
{
    if k < ps.len() {
        assert(ps.take(k + 1).drop_last() =~= ps.take(k));
        lemma_families_none_extends(ps, k + 1);
    } else {
        assert(ps.take(k) =~= ps);
    }
}

// ---------------------------------------------------------------------------------------------
// Keywords
// ---------------------------------------------------------------------------------------------

pub open spec fn justify_content_name(jc: JustifyContent) -> Seq<char> {
    match jc {
        JustifyContent::FlexStart => "flex-start"@,
        JustifyContent::FlexEnd => "flex-end"@,
        JustifyContent::Center => "center"@,
        JustifyContent::SpaceBetween => "space-between"@,
        JustifyContent::SpaceAround => "space-around"@,
        JustifyContent::SpaceEvenly => "space-evenly"@,
    }
}

/// The keyword of a `justify-content` value.
pub fn justify_content_str(jc: JustifyContent) -> (r: &'static str)
    ensures
        r@ == justify_content_name(jc),
{
    match jc {
        JustifyContent::FlexStart => "flex-start",
        JustifyContent::FlexEnd => "flex-end",
        JustifyContent::Center => "center",
        JustifyContent::SpaceBetween => "space-between",
        JustifyContent::SpaceAround => "space-around",
        JustifyContent::SpaceEvenly => "space-evenly",
    }
}

// ---------------------------------------------------------------------------------------------
// Laws
// ---------------------------------------------------------------------------------------------

/// Reading back a serialized CSS string (decoding the escapes of its body) gives the serialized
/// value, whatever characters it holds.
pub proof fn law_css_string_reads_back(s: Seq<char>)
    ensures
        unescape(css_escape(s)) == s,
        css_string(s).subrange(1, css_string(s).len() - 1) == css_escape(s),
    decreases s.len(),
{
    if s.len() > 0 {
        law_css_string_reads_back(s.drop_first());
        let c = s[0];
        let rest = css_escape(s.drop_first());
        let e = escape_char(c) + rest;
        assert(css_escape(s) == e);
        if c == '"' || c == '\\' {
            assert(e[0] == '\\' && e[1] == c);
            assert(!is_hex_digit(c));
            assert(e.skip(2) =~= rest);
        } else {
            assert(e[0] == c);
            assert(e.drop_first() =~= rest);
        }
        assert(seq![c] + s.drop_first() =~= s);
    } else {
        assert(css_escape(s) =~= Seq::<char>::empty());
    }
    assert(css_string(s).subrange(1, css_string(s).len() - 1) =~= css_escape(s));
}

proof fn lemma_comma_join(s: Seq<char>)
    ensures
        join(comma_state(s).0.push(comma_state(s).1), ","@) == s,
    decreases s.len(),
{
    reveal_strlit(",");
    if s.len() > 0 {
        lemma_comma_join(s.drop_last());
        let (parts, buf, st) = comma_state(s.drop_last());
        let c = s.last();
        let (parts2, buf2, _) = comma_state(s);
        assert(s.drop_last().push(c) =~= s);
        if parts2 == parts {
            assert(buf2 == buf.push(c));
            if parts.len() == 0 {
                assert(join(parts.push(buf2), ","@) == buf2);
                assert(join(parts.push(buf), ","@) == buf);
            } else {
                assert(parts.push(buf2).drop_last() =~= parts);
                assert(parts.push(buf).drop_last() =~= parts);
                assert(join(parts.push(buf2), ","@) =~= join(parts.push(buf), ","@).push(c));
            }
        } else {
            assert(parts2 == parts.push(buf) && buf2 == Seq::<char>::empty());
            assert(parts2.push(buf2).drop_last() =~= parts2);
            assert(join(parts2.push(buf2), ","@) =~= join(parts2, ","@) + ","@);
            assert(join(parts2.push(buf2), ","@) =~= s);
        }
    } else {
        assert(join(seq![Seq::<char>::empty()], ","@) == Seq::<char>::empty());
    }
}

/// The top-level comma split loses nothing: joining the parts with commas gives the input back.
pub proof fn law_split_commas_rejoins(s: Seq<char>)
    ensures
        join(split_commas(s), ","@) == s,
{
    lemma_comma_join(s);
}

pub open spec fn no_ws(w: Seq<char>) -> bool {
    forall|k: int| 0 <= k < w.len() ==> !is_ws(#[trigger] w[k])
}

pub open spec fn plain_words(words: Seq<Seq<char>>) -> bool {
    forall|j: int| 0 <= j < words.len() ==> (#[trigger] words[j]).len() > 0 && no_ws(words[j])
}

/// Appending characters that are not whitespace only extends the word being read.
proof fn lemma_ws_state_extend(x: Seq<char>, w: Seq<char>)
    requires
        no_ws(w),
    ensures
        ws_split_state(x + w) == (ws_split_state(x).0, ws_split_state(x).1 + w),
    decreases w.len(),
{
    if w.len() == 0 {
        assert(x + w =~= x);
        assert(ws_split_state(x).1 + w =~= ws_split_state(x).1);
    } else {
        lemma_ws_state_extend(x, w.drop_last());
        assert((x + w).drop_last() =~= x + w.drop_last());
        assert((x + w).last() == w.last());
        assert(!is_ws(w[w.len() - 1]));
        assert((ws_split_state(x).1 + w.drop_last()).push(w.last()) =~= ws_split_state(x).1 + w);
    }
}

proof fn lemma_split_ws_join(words: Seq<Seq<char>>)
    requires
        words.len() > 0,
        plain_words(words),
    ensures
        ws_split_state(join(words, " "@)) == (words.drop_last(), words.last()),
        split_ws(join(words, " "@)) == words,
    decreases words.len(),
{
    reveal_strlit(" ");
    if words.len() == 1 {
        lemma_ws_state_extend(Seq::<char>::empty(), words[0]);
        assert(Seq::<char>::empty() + words[0] =~= words[0]);
        assert(Seq::<char>::empty() + words[0] =~= words[0]);
        assert(words.drop_last() =~= Seq::<Seq<char>>::empty());
    } else {
        let init = words.drop_last();
        assert forall|j: int| 0 <= j < init.len() implies (#[trigger] init[j]).len() > 0 && no_ws(
            init[j],
        ) by {
            assert(init[j] == words[j]);
        }
        lemma_split_ws_join(init);
        let x = join(init, " "@) + " "@;
        assert(x.drop_last() =~= join(init, " "@));
        assert(x.last() == ' ');
        assert(init.last().len() > 0);
        assert(ws_split_state(x) == (init.drop_last().push(init.last()), Seq::<char>::empty()));
        assert(init.drop_last().push(init.last()) =~= init);
        let w = words.last();
        assert(no_ws(words[words.len() - 1]));
        lemma_ws_state_extend(x, w);
        assert(join(words, " "@) == x + w);
        assert(Seq::<char>::empty() + w =~= w);
    }
    let st = ws_split_state(join(words, " "@));
    assert(words.last().len() > 0);
    assert(st.0.push(st.1) =~= words);
}

/// The words of a whitespace split are non-empty and hold no whitespace; a text starting with
/// a non-whitespace character has that character first in its first word.
proof fn lemma_ws_state_words(s: Seq<char>)
    ensures
        plain_words(ws_split_state(s).0),
        no_ws(ws_split_state(s).1),
        s.len() > 0 && !is_ws(s[0]) ==> if ws_split_state(s).0.len() > 0 {
            ws_split_state(s).0[0][0] == s[0]
        } else {
            ws_split_state(s).1.len() > 0 && ws_split_state(s).1[0] == s[0]
        },
    decreases s.len(),
{
    if s.len() > 0 {
        lemma_ws_state_words(s.drop_last());
        let (words, cur) = ws_split_state(s.drop_last());
        let c = s.last();
        if is_ws(c) {
            if cur.len() > 0 {
                assert forall|j: int| 0 <= j < words.push(cur).len() implies (#[trigger] words.push(cur)[j]).len()
                    > 0 && no_ws(words.push(cur)[j]) by {
                    if j < words.len() {
                        assert(words.push(cur)[j] == words[j]);
                    }
                }
            }
        } else {
            assert forall|k: int| 0 <= k < cur.push(c).len() implies !is_ws(#[trigger] cur.push(c)[k]) by {
                if k < cur.len() {
                    assert(cur.push(c)[k] == cur[k]);
                }
            }
        }
        if s.len() > 1 && !is_ws(s[0]) {
            assert(s.drop_last()[0] == s[0]);
        }
    }
}

proof fn lemma_split_ws_plain(s: Seq<char>)
    ensures
        plain_words(split_ws(s)),
        s.len() > 0 && !is_ws(s[0]) ==> split_ws(s).len() > 0 && split_ws(s)[0][0] == s[0],
{
    lemma_ws_state_words(s);
    let (words, cur) = ws_split_state(s);
    if cur.len() > 0 {
        assert forall|j: int| 0 <= j < words.push(cur).len() implies (#[trigger] words.push(cur)[j]).len()
            > 0 && no_ws(words.push(cur)[j]) by {
            if j < words.len() {
                assert(words.push(cur)[j] == words[j]);
            }
        }
        if words.len() > 0 {
            assert(words.push(cur)[0] == words[0]);
        }
    }
}

proof fn lemma_join_first(words: Seq<Seq<char>>, sep: Seq<char>)
    requires
        words.len() > 0,
        words[0].len() > 0,
    ensures
        join(words, sep).len() > 0,
        join(words, sep)[0] == words[0][0],
    decreases words.len(),
{
    if words.len() > 1 {
        lemma_join_first(words.drop_last(), sep);
    }
}

/// Scanning a serialized CSS string body with escapes honoured reaches its closing quote.
proof fn lemma_close_quote_escaped(pre: Seq<char>, t: Seq<char>)
    requires
        pre.len() > 0,
    ensures
        close_quote(pre + css_escape(t) + seq!['"'], '"', pre.len() as int) == Some(
            (pre.len() + css_escape(t).len()) as int,
        ),
    decreases t.len(),
{
    let s = pre + css_escape(t) + seq!['"'];
    if t.len() == 0 {
        assert(css_escape(t) =~= Seq::<char>::empty());
        assert(s[pre.len() as int] == '"');
    } else {
        let c = t[0];
        let rest = t.drop_first();
        let pre2 = pre + escape_char(c);
        lemma_close_quote_escaped(pre2, rest);
        assert(s =~= pre2 + css_escape(rest) + seq!['"']);
        if c == '"' || c == '\\' {
            assert(s[pre.len() as int] == '\\');
        } else {
            assert(s[pre.len() as int] == c);
        }
    }
}

proof fn lemma_trim_start_len(s: Seq<char>)
    ensures
        trim_start(s).len() <= s.len(),
    decreases s.len(),
{
    if s.len() > 0 && is_ws(s[0]) {
        lemma_trim_start_len(s.drop_first());
    }
}

proof fn lemma_trim_end_len(s: Seq<char>)
    ensures
        trim_end(s).len() <= s.len(),
    decreases s.len(),
{
    if s.len() > 0 && is_ws(s.last()) {
        lemma_trim_end_len(s.drop_last());
    }
}

/// A family name in canonical form is left unchanged by serializing it again: the canonical
/// form of a single family name is a fixed point.
pub proof fn law_family_fixed_point(fam: Seq<char>)
    requires
        fam.len() > 0,
        trim(fam) == fam,
        family_piece(fam) is Some,
    ensures
        family_piece(family_piece(fam).unwrap()) == family_piece(fam),
{
    reveal_strlit(" ");
    let p = family_piece(fam).unwrap();
    let q = fam[0];
    if q == '"' || q == '\'' {
        let k = close_quote(fam, q, 1).unwrap();
        let body = unescape(fam.subrange(1, k));
        let words = split_on(body, ' ');
        if all_idents(words) && join(words, " "@) == body && !reserved_family(body) {
            assert(p == body);
            assert forall|j: int| 0 <= j < words.len() implies (#[trigger] words[j]).len() > 0
                && no_ws(words[j]) by {
                assert(css_ident(words[j]));
                assert forall|m: int| 0 <= m < words[j].len() implies !is_ws(#[trigger] words[j][m]) by {
                    if words[j][0] == '-' {
                        if m >= 2 {
                            assert(ident_char(words[j][m]));
                        }
                    } else if m >= 1 {
                        assert(ident_char(words[j][m]));
                    }
                }
            }
            lemma_split_ws_join(words);
            lemma_join_first(words, " "@);
            assert(css_ident(words[0]));
            assert(p[0] == words[0][0]);
        } else {
            assert(p == css_string(body));
            law_css_string_reads_back(body);
            lemma_close_quote_escaped(seq!['"'], body);
            let pl = p.len() as int;
            assert(p.skip(pl) =~= Seq::<char>::empty());
            assert(p.subrange(1, pl - 1) == css_escape(body));
        }
    } else {
        let words = split_ws(fam);
        assert(!is_ws(fam[0])) by {
            if is_ws(fam[0]) {
                assert(trim_start(fam) == trim_start(fam.drop_first()));
                lemma_trim_start_len(fam.drop_first());
                lemma_trim_end_len(trim_start(fam));
            }
        }
        lemma_split_ws_plain(fam);
        lemma_split_ws_join(words);
        lemma_join_first(words, " "@);
    }
}


// ---------------------------------------------------------------------------------------------
// Re-serializing a serialized family list
// ---------------------------------------------------------------------------------------------

/// Scanner states that can occur: outside a quote no escape is pending.
pub open spec fn scan_ok(st: Scan) -> bool {
    &&& st.1 is None ==> !st.2
    &&& st.1 matches Some(q) ==> q == '"' || q == '\''
}

/// A piece that scans from the start state back to it without meeting a top-level comma.
pub open spec fn clean(t: Seq<char>) -> bool {
    !cuts(scan_start(), t) && scan(scan_start(), t) == scan_start()
}

proof fn lemma_scan_ok(st: Scan, t: Seq<char>)
    requires
        scan_ok(st),
    ensures
        scan_ok(scan(st, t)),
    decreases t.len(),
{
    if t.len() > 0 {
        lemma_scan_ok(st, t.drop_last());
    }
}

proof fn lemma_scan_concat(st: Scan, a: Seq<char>, b: Seq<char>)
    ensures
        scan(st, a + b) == scan(scan(st, a), b),
        cuts(st, a + b) == (cuts(st, a) || cuts(scan(st, a), b)),
    decreases b.len(),
{
    if b.len() == 0 {
        assert(a + b =~= a);
    } else {
        lemma_scan_concat(st, a, b.drop_last());
        assert((a + b).drop_last() =~= a + b.drop_last());
        assert((a + b).last() == b.last());
    }
}

proof fn lemma_comma_state_extend(x: Seq<char>, t: Seq<char>)
    requires
        !cuts(comma_state(x).2, t),
    ensures
        comma_state(x + t) == (comma_state(x).0, comma_state(x).1 + t, scan(comma_state(x).2, t)),
    decreases t.len(),
{
    if t.len() == 0 {
        assert(x + t =~= x);
        assert(comma_state(x).1 + t =~= comma_state(x).1);
    } else {
        lemma_comma_state_extend(x, t.drop_last());
        assert((x + t).drop_last() =~= x + t.drop_last());
        assert((x + t).last() == t.last());
        assert((comma_state(x).1 + t.drop_last()).push(t.last()) =~= comma_state(x).1 + t);
    }
}

/// Every finished part is clean, and the part being read scans to the current state.
proof fn lemma_comma_state_inv(s: Seq<char>)
    ensures
        forall|i: int| 0 <= i < comma_state(s).0.len() ==> clean(#[trigger] comma_state(s).0[i]),
        !cuts(scan_start(), comma_state(s).1),
        scan(scan_start(), comma_state(s).1) == comma_state(s).2,
        scan_ok(comma_state(s).2),
    decreases s.len(),
{
    if s.len() > 0 {
        lemma_comma_state_inv(s.drop_last());
        let (parts, buf, st) = comma_state(s.drop_last());
        let c = s.last();
        if is_cut(st, c) {
            let p2 = parts.push(buf);
            assert forall|i: int| 0 <= i < p2.len() implies clean(#[trigger] p2[i]) by {
                if i < parts.len() {
                    assert(p2[i] == parts[i]);
                }
            }
        } else {
            assert(buf.push(c).drop_last() =~= buf);
        }
    }
}

/// Whitespace changes no depth or quote, meets no comma, and only ends a pending escape.
proof fn lemma_ws_scan(st: Scan, w: Seq<char>)
    requires
        all_ws(w),
        scan_ok(st),
    ensures
        !cuts(st, w),
        scan(st, w) == (if w.len() > 0 && st.1 is Some { (st.0, st.1, false) } else { st }),
    decreases w.len(),
{
    if w.len() > 0 {
        assert(all_ws(w.drop_last())) by {
            assert forall|k: int| 0 <= k < w.drop_last().len() implies is_ws(#[trigger] w.drop_last()[k]) by {
                assert(w.drop_last()[k] == w[k]);
            }
        }
        lemma_ws_scan(st, w.drop_last());
        assert(is_ws(w[w.len() - 1]));
    }
}

/// Characters that the scanner passes over without any change.
pub open spec fn plain_char(c: char) -> bool {
    c != '"' && c != '\'' && c != '(' && c != ')' && c != ',' && c != '\\'
}

proof fn lemma_plain_scan(t: Seq<char>)
    requires
        forall|k: int| 0 <= k < t.len() ==> plain_char(#[trigger] t[k]),
    ensures
        clean(t),
    decreases t.len(),
{
    if t.len() > 0 {
        lemma_plain_scan(t.drop_last());
        assert(plain_char(t[t.len() - 1]));
    }
}

/// The characters of a CSS string body, escaped, keep the scanner inside the double quote.
proof fn lemma_escape_scan(body: Seq<char>)
    ensures
        scan((0nat, Some('"'), false), css_escape(body)) == (0nat, Some('"'), false),
        !cuts((0nat, Some('"'), false), css_escape(body)),
    decreases body.len(),
{
    let q: Scan = (0nat, Some('"'), false);
    if body.len() > 0 {
        lemma_escape_scan(body.drop_first());
        let e = escape_char(body[0]);
        assert(css_escape(body) == e + css_escape(body.drop_first()));
        lemma_scan_concat(q, e, css_escape(body.drop_first()));
        reveal_with_fuel(scan, 3);
        reveal_with_fuel(cuts, 3);
        if e.len() == 2 {
            assert(e.drop_last() =~= seq![e[0]]);
            assert(seq![e[0]].drop_last() =~= Seq::<char>::empty());
            assert(scan(q, seq![e[0]]) == scan_step(q, e[0]));
            assert(scan(q, e) == scan_step(scan_step(q, e[0]), e[1]));
        } else {
            assert(e.drop_last() =~= Seq::<char>::empty());
            assert(scan(q, e) == scan_step(q, e[0]));
        }
    }
}

proof fn lemma_css_string_clean(body: Seq<char>)
    ensures
        clean(css_string(body)),
{
    let q: Scan = (0nat, Some('"'), false);
    lemma_escape_scan(body);
    assert(seq!['"'].drop_last() =~= Seq::<char>::empty());
    assert(seq!['"'].last() == '"');
    reveal_with_fuel(scan, 2);
    reveal_with_fuel(cuts, 2);
    assert(scan(scan_start(), seq!['"']) == q);
    assert(!cuts(scan_start(), seq!['"']));
    lemma_scan_concat(scan_start(), seq!['"'], css_escape(body));
    lemma_scan_concat(scan_start(), seq!['"'] + css_escape(body), seq!['"']);
    assert(scan(q, seq!['"']) == scan_start());
    assert(!cuts(q, seq!['"']));
}

/// A family name with its whitespace runs collapsed to single spaces.
pub open spec fn collapsed_words(x: Seq<char>) -> Seq<char> {
    join(split_ws(x), " "@)
}

proof fn lemma_join_push_char(w: Seq<Seq<char>>, a: Seq<char>, c: char, sep: Seq<char>)
    ensures
        join(w.push(a.push(c)), sep) == join(w.push(a), sep).push(c),
{
    if w.len() == 0 {
        assert(w.push(a.push(c)).len() == 1);
    } else {
        assert(w.push(a.push(c)).drop_last() =~= w);
        assert(w.push(a).drop_last() =~= w);
        assert(join(w, sep) + sep + a.push(c) =~= (join(w, sep) + sep + a).push(c));
    }
}

/// Collapsing whitespace changes nothing the comma scanner sees, except that trailing
/// whitespace may end a pending escape.
proof fn lemma_collapse_scan(x: Seq<char>)
    ensures
        cuts(scan_start(), x) == cuts(scan_start(), collapsed_words(x)),
        ws_split_state(x).1.len() > 0 ==> scan(scan_start(), x) == scan(scan_start(), collapsed_words(x)),
        ws_split_state(x).1.len() == 0 ==> scan(scan_start(), x) == (
            scan(scan_start(), collapsed_words(x)).0,
            scan(scan_start(), collapsed_words(x)).1,
            false,
        ),
        ws_split_state(x).0.len() == 0 && ws_split_state(x).1.len() == 0 ==> collapsed_words(x).len() == 0,
    decreases x.len(),
{
    reveal_strlit(" ");
    let z = scan_start();
    if x.len() == 0 {
        assert(split_ws(x) =~= Seq::<Seq<char>>::empty());
    } else {
        let y = x.drop_last();
        let c = x.last();
        lemma_collapse_scan(y);
        let (w, cur) = ws_split_state(y);
        let cy = collapsed_words(y);
        let cx = collapsed_words(x);
        lemma_scan_ok(z, y);
        lemma_scan_ok(z, cy);
        let sy = scan(z, cy);
        assert(scan(z, x) == scan_step(scan(z, y), c));
        assert(cuts(z, x) == (cuts(z, y) || is_cut(scan(z, y), c)));
        if is_ws(c) {
            if cur.len() > 0 {
                assert(split_ws(x) == w.push(cur));
            } else {
                assert(split_ws(x) == split_ws(y));
            }
            assert(cx == cy);
        } else if cur.len() > 0 {
            assert(split_ws(x) == w.push(cur.push(c)));
            lemma_join_push_char(w, cur, c, " "@);
            assert(cx == cy.push(c));
            assert(cy.push(c).drop_last() =~= cy);
        } else if w.len() == 0 {
            assert(cur.push(c) =~= seq![c]);
            assert(ws_split_state(x) == (w, cur.push(c)));
            assert(split_ws(x) =~= seq![seq![c]]);
            assert(cx == seq![c]);
            assert(cy.len() == 0);
            assert(seq![c].drop_last() =~= Seq::<char>::empty());
            assert(cy.push(c) =~= seq![c]);
            assert(cy.push(c).drop_last() =~= cy);
        } else {
            assert(cur.push(c) =~= seq![c]);
            assert(ws_split_state(x) == (w, cur.push(c)));
            assert(split_ws(x) == w.push(seq![c]));
            assert(w.push(seq![c]).drop_last() =~= w);
            assert(split_ws(y) == w);
            assert(cx == cy + " "@ + seq![c]);
            let sp = cy + " "@;
            assert(sp.drop_last() =~= cy);
            assert(sp.last() == ' ');
            assert(sp.push(c) =~= cx);
            assert(sp.push(c).drop_last() =~= sp);
            assert(scan(z, sp) == scan_step(sy, ' '));
            assert(cuts(z, sp) == (cuts(z, cy) || is_cut(sy, ' ')));
            assert(scan_step(sy, ' ') == (sy.0, sy.1, false));
            assert(scan(z, cx) == scan_step(scan(z, sp), c));
            assert(cuts(z, cx) == (cuts(z, sp) || is_cut(scan(z, sp), c)));
        }
    }
}


proof fn lemma_trim_start_parts(s: Seq<char>) -> (lead: Seq<char>)
    ensures
        s == lead + trim_start(s),
        all_ws(lead),
        trim_start(s).len() > 0 ==> !is_ws(trim_start(s)[0]),
    decreases s.len(),
{
    if s.len() > 0 && is_ws(s[0]) {
        let l = lemma_trim_start_parts(s.drop_first());
        let lead = seq![s[0]] + l;
        assert(trim_start(s) == trim_start(s.drop_first()));
        assert(s =~= seq![s[0]] + s.drop_first());
        assert(s =~= lead + trim_start(s));
        assert forall|k: int| 0 <= k < lead.len() implies is_ws(#[trigger] lead[k]) by {
            if k > 0 {
                assert(lead[k] == l[k - 1]);
            }
        }
        lead
    } else {
        assert(s =~= Seq::<char>::empty() + s);
        Seq::<char>::empty()
    }
}

proof fn lemma_trim_end_parts(t: Seq<char>) -> (trail: Seq<char>)
    ensures
        t == trim_end(t) + trail,
        all_ws(trail),
        trim_end(t).len() > 0 ==> !is_ws(trim_end(t).last()) && trim_end(t)[0] == t[0],
    decreases t.len(),
{
    if t.len() > 0 && is_ws(t.last()) {
        let tr = lemma_trim_end_parts(t.drop_last());
        let trail = tr.push(t.last());
        assert(trim_end(t) == trim_end(t.drop_last()));
        assert(t =~= t.drop_last().push(t.last()));
        assert(t =~= trim_end(t) + trail);
        assert forall|k: int| 0 <= k < trail.len() implies is_ws(#[trigger] trail[k]) by {
            if k < tr.len() {
                assert(trail[k] == tr[k]);
            }
        }
        trail
    } else {
        assert(t =~= t + Seq::<char>::empty());
        Seq::<char>::empty()
    }
}

/// A name whose ends are not whitespace is its own trim.
proof fn lemma_trim_fixed(o: Seq<char>)
    requires
        o.len() > 0,
        !is_ws(o[0]),
        !is_ws(o.last()),
    ensures
        trim(o) == o,
        trim(seq![' '] + o) == o,
{
    assert(trim_start(o) == o);
    assert(trim_end(o) == o);
    assert((seq![' '] + o).drop_first() =~= o);
    assert((seq![' '] + o)[0] == ' ');
    assert(trim_start(seq![' '] + o) == trim_start(o));
}

proof fn lemma_join_last(words: Seq<Seq<char>>, sep: Seq<char>)
    requires
        words.len() > 0,
        words.last().len() > 0,
    ensures
        join(words, sep).len() > 0,
        join(words, sep).last() == words.last().last(),
{
}

proof fn lemma_join_ident_chars(words: Seq<Seq<char>>)
    requires
        all_idents(words),
    ensures
        forall|k: int|
            0 <= k < join(words, " "@).len() ==> ident_char(#[trigger] join(words, " "@)[k])
                || join(words, " "@)[k] == ' ',
    decreases words.len(),
{
    reveal_strlit(" ");
    if words.len() == 1 {
        assert(css_ident(words[0]));
    } else if words.len() > 1 {
        let init = words.drop_last();
        assert forall|j: int| 0 <= j < init.len() implies css_ident(#[trigger] init[j]) by {
            assert(init[j] == words[j]);
        }
        lemma_join_ident_chars(init);
        let w = words.last();
        assert(css_ident(words[words.len() - 1]));
        let a = join(init, " "@);
        let b = join(words, " "@);
        assert(b == a + " "@ + w);
        assert forall|k: int| 0 <= k < b.len() implies ident_char(#[trigger] b[k]) || b[k] == ' ' by {
            if k < a.len() {
                assert(b[k] == a[k]);
            } else if k == a.len() {
            } else {
                assert(b[k] == w[k - a.len() - 1]);
            }
        }
    }
}

/// A serialized family name: non-empty, not starting or ending with whitespace, and its own
/// canonical form.
pub open spec fn settled(o: Seq<char>) -> bool {
    &&& o.len() > 0
    &&& !is_ws(o[0])
    &&& !is_ws(o.last())
    &&& family_piece(o) == Some(o)
}

/// The canonical form of the family in a comma part that scans without a top-level comma is
/// settled, scans without one too, and is clean when the part is.
proof fn lemma_piece_scan(part: Seq<char>)
    requires
        trim(part).len() > 0,
        family_piece(trim(part)) is Some,
        !cuts(scan_start(), part),
    ensures
        settled(family_piece(trim(part)).unwrap()),
        !cuts(scan_start(), family_piece(trim(part)).unwrap()),
        clean(part) ==> clean(family_piece(trim(part)).unwrap()),
{
    reveal_strlit(" ");
    let z = scan_start();
    let fam = trim(part);
    let o = family_piece(fam).unwrap();
    let ts = trim_start(part);
    let lead = lemma_trim_start_parts(part);
    let trail = lemma_trim_end_parts(ts);
    assert(part == lead + fam + trail);
    assert(!is_ws(fam[0]) && !is_ws(fam.last()));
    lemma_trim_fixed(fam);
    law_family_fixed_point(fam);
    // The family scans like the part, whose ends are whitespace.
    lemma_ws_scan(z, lead);
    lemma_scan_concat(z, lead, fam);
    lemma_scan_concat(z, lead + fam, trail);
    lemma_scan_ok(z, lead + fam);
    lemma_ws_scan(scan(z, lead + fam), trail);
    assert(!cuts(z, fam));
    assert(scan(z, part) == z ==> scan(z, fam) == z);
    let q = fam[0];
    if q == '"' || q == '\'' {
        let k = close_quote(fam, q, 1).unwrap();
        let body = unescape(fam.subrange(1, k));
        let words = split_on(body, ' ');
        if all_idents(words) && join(words, " "@) == body && !reserved_family(body) {
            assert(o == body);
            lemma_join_ident_chars(words);
            assert(css_ident(words[0]));
            assert(css_ident(words[words.len() - 1]));
            lemma_join_first(words, " "@);
            lemma_join_last(words, " "@);
            assert(forall|k: int| 0 <= k < o.len() ==> ident_char(#[trigger] o[k]) || o[k] == ' ');
            assert forall|k: int| 0 <= k < o.len() implies plain_char(#[trigger] o[k]) by {
                assert(ident_char(o[k]) || o[k] == ' ');
            }
            lemma_plain_scan(o);
            assert(ident_char(o[0]));
            assert(ident_char(o[o.len() - 1]));
        } else {
            assert(o == css_string(body));
            lemma_css_string_clean(body);
        }
    } else {
        let (w, cur) = ws_split_state(fam);
        assert(fam.drop_last().push(fam.last()) =~= fam);
        assert(cur.len() > 0);
        lemma_collapse_scan(fam);
        lemma_split_ws_plain(fam);
        let words = split_ws(fam);
        assert(words == w.push(cur));
        lemma_join_first(words, " "@);
        lemma_join_last(words, " "@);
        assert(no_ws(words[words.len() - 1]));
        assert(!is_ws(words.last()[words.last().len() - 1]));
    }
}


/// The canonical names of parts that all scan cleanly are settled and clean.
proof fn lemma_families_clean(ps: Seq<Seq<char>>)
    requires
        forall|i: int| 0 <= i < ps.len() ==> clean(#[trigger] ps[i]),
    ensures
        families(ps) matches Some(outs) ==> forall|i: int|
            0 <= i < outs.len() ==> settled(#[trigger] outs[i]) && clean(outs[i]),
    decreases ps.len(),
{
    if ps.len() > 0 {
        let init = ps.drop_last();
        assert forall|i: int| 0 <= i < init.len() implies clean(#[trigger] init[i]) by {
            assert(init[i] == ps[i]);
        }
        lemma_families_clean(init);
        let fam = trim(ps.last());
        if families(init) is Some && fam.len() > 0 && family_piece(fam) is Some {
            assert(clean(ps[ps.len() - 1]));
            lemma_piece_scan(ps.last());
            let done = families(init).unwrap();
            let outs = done.push(family_piece(fam).unwrap());
            assert forall|i: int| 0 <= i < outs.len() implies settled(#[trigger] outs[i]) && clean(outs[i]) by {
                if i < done.len() {
                    assert(outs[i] == done[i]);
                }
            }
        }
    }
}

/// The canonical names of the parts of a split: all settled, all but the last clean, and the
/// last free of top-level commas.
proof fn lemma_families_split(ps: Seq<Seq<char>>)
    requires
        ps.len() > 0,
        forall|i: int| 0 <= i < ps.len() - 1 ==> clean(#[trigger] ps[i]),
        !cuts(scan_start(), ps.last()),
    ensures
        families(ps) matches Some(outs) ==> {
            &&& forall|i: int| 0 <= i < outs.len() ==> settled(#[trigger] outs[i])
            &&& forall|i: int| 0 <= i < outs.len() - 1 ==> clean(#[trigger] outs[i])
            &&& outs.len() > 0 ==> !cuts(scan_start(), outs.last())
        },
{
    let init = ps.drop_last();
    assert forall|i: int| 0 <= i < init.len() implies clean(#[trigger] init[i]) by {
        assert(init[i] == ps[i]);
    }
    lemma_families_clean(init);
    let fam = trim(ps.last());
    if let Some(done) = families(init) {
        if fam.len() > 0 && family_piece(fam) is Some {
            lemma_piece_scan(ps.last());
            let outs = done.push(family_piece(fam).unwrap());
            assert forall|i: int| 0 <= i < outs.len() implies settled(#[trigger] outs[i]) by {
                if i < done.len() {
                    assert(outs[i] == done[i]);
                }
            }
            assert forall|i: int| 0 <= i < outs.len() - 1 implies clean(#[trigger] outs[i]) by {
                assert(outs[i] == done[i]);
            }
        } else if fam.len() == 0 {
            if done.len() > 0 {
                assert(clean(done[done.len() - 1]));
            }
        }
    }
}

/// Serialized names as the comma split of their `, `-joined list shows them: the first as it
/// is, every other one after the space that follows its comma.
pub open spec fn spaced(outs: Seq<Seq<char>>) -> Seq<Seq<char>> {
    Seq::new(outs.len(), |i: int| if i == 0 { outs[0] } else { seq![' '] + outs[i] })
}

proof fn lemma_join_split(outs: Seq<Seq<char>>)
    requires
        outs.len() > 0,
        forall|i: int| 0 <= i < outs.len() - 1 ==> clean(#[trigger] outs[i]),
        !cuts(scan_start(), outs.last()),
    ensures
        comma_state(join(outs, ", "@)) == (
            spaced(outs).drop_last(),
            spaced(outs).last(),
            scan(scan_start(), outs.last()),
        ),
    decreases outs.len(),
{
    reveal_strlit(", ");
    let z = scan_start();
    if outs.len() == 1 {
        lemma_comma_state_extend(Seq::<char>::empty(), outs[0]);
        assert(Seq::<char>::empty() + outs[0] =~= outs[0]);
        assert(spaced(outs).drop_last() =~= Seq::<Seq<char>>::empty());
    } else {
        let init = outs.drop_last();
        let last = outs.last();
        assert forall|i: int| 0 <= i < init.len() - 1 implies clean(#[trigger] init[i]) by {
            assert(init[i] == outs[i]);
        }
        assert(clean(outs[outs.len() - 2]));
        lemma_join_split(init);
        let a = join(init, ", "@);
        let x1 = a.push(',');
        assert(x1.drop_last() =~= a);
        assert(is_cut(comma_state(a).2, ','));
        let sp = seq![' '] + last;
        reveal_with_fuel(scan, 2);
        reveal_with_fuel(cuts, 2);
        assert(seq![' '].drop_last() =~= Seq::<char>::empty());
        lemma_scan_concat(z, seq![' '], last);
        lemma_comma_state_extend(x1, sp);
        assert(join(outs, ", "@) =~= x1 + sp);
        assert(spaced(init).drop_last().push(spaced(init).last()) =~= spaced(init));
        assert(spaced(outs).drop_last() =~= spaced(init));
    }
}

proof fn lemma_families_spaced(outs: Seq<Seq<char>>)
    requires
        forall|i: int| 0 <= i < outs.len() ==> settled(#[trigger] outs[i]),
    ensures
        families(spaced(outs)) == Some(outs),
    decreases outs.len(),
{
    if outs.len() > 0 {
        let init = outs.drop_last();
        assert forall|i: int| 0 <= i < init.len() implies settled(#[trigger] init[i]) by {
            assert(init[i] == outs[i]);
        }
        lemma_families_spaced(init);
        assert(spaced(outs).drop_last() =~= spaced(init));
        let o = outs.last();
        assert(settled(outs[outs.len() - 1]));
        lemma_trim_fixed(o);
        assert(outs =~= init.push(o));
    }
}

/// Serializing a `font-family` list that serialized successfully gives it back unchanged:
/// repeated CSSOM round-trips neither grow nor fail.
pub proof fn law_font_family_fixed_point(val: Seq<char>)
    ensures
        serialized_font_family(val) matches Some(s) ==> serialized_font_family(s) == Some(s),
{
    reveal_strlit(", ");
    lemma_comma_state_inv(val);
    let (parts, buf, st) = comma_state(val);
    let ps = parts.push(buf);
    assert forall|i: int| 0 <= i < ps.len() - 1 implies clean(#[trigger] ps[i]) by {
        assert(ps[i] == parts[i]);
    }
    lemma_families_split(ps);
    assert(split_commas(val) == ps);
    if let Some(outs) = families(ps) {
        let s = join(outs, ", "@);
        if outs.len() == 0 {
            assert(s == Seq::<char>::empty());
            assert(comma_state(s) == (Seq::<Seq<char>>::empty(), Seq::<char>::empty(), scan_start()));
            assert(split_commas(s) =~= seq![Seq::<char>::empty()]);
            assert(seq![Seq::<char>::empty()].drop_last() =~= Seq::<Seq<char>>::empty());
            assert(trim(Seq::<char>::empty()) == Seq::<char>::empty());
            let e = seq![Seq::<char>::empty()];
            assert(e.drop_last() =~= Seq::<Seq<char>>::empty());
            assert(families(e.drop_last()) == Some(Seq::<Seq<char>>::empty()));
            assert(e.last() == Seq::<char>::empty());
            assert(trim_start(Seq::<char>::empty()) == Seq::<char>::empty());
            assert(trim_end(Seq::<char>::empty()) == Seq::<char>::empty());
            assert(families(e) == Some(Seq::<Seq<char>>::empty()));
            assert(serialized_font_family(s) == Some(s));
        } else {
            lemma_join_split(outs);
            assert(split_commas(s) =~= spaced(outs));
            lemma_families_spaced(outs);
        }
    }
}

} // verus!
