//! The `querySelector` engine: type / `.class` / `#id` / `[attr]` compounds joined by the
//! descendant, child, next-sibling and subsequent-sibling combinators.

use vstd::prelude::*;
use crate::dom::{
    Document, ElementData, Node, NodeData, NodeId, attr_value, class_list, subtree,
    children_subtrees, find_attr, doc_wf, str_views, rank, deeper,
};
use crate::inner_text::{first_index, last_match, index_in, lemma_first_index};
use crate::serialize::{
    split_on, split_on_char, hex_len, hex_value, escaped_char, scalar_value, lemma_hex_len_bound, pow16,
    char_from_u32,
};
use crate::text::{
    eq_ignore_case, string_of, is_ws, is_ascii_ws, is_hex_digit, lower_seq, trim, trim_end, starts_with, ends_with, split_ws,
    views, to_chars, lower, seq_eq, has_prefix, has_suffix, trim_vec, split_whitespace, slice_vec,
    string_from, is_whitespace, is_ascii_whitespace, is_ascii_hexdigit, push_char,
};

verus! {

broadcast use vstd::string::group_string_axioms;

// ---------------------------------------------------------------------------------------------
// Attribute conditions
// ---------------------------------------------------------------------------------------------

/// The operator of an attribute selector.
#[derive(Clone, Copy, PartialEq, Eq, Debug, Structural)]
pub enum AttrMatchOp {
    /// `[attr]`
    Exists,
    /// `[attr=v]`
    Equals,
    /// `[attr~=v]`: `v` is one of the whitespace-separated words.
    Includes,
    /// `[attr|=v]`: exactly `v`, or `v` followed by `-`.
    DashMatch,
    /// `[attr^=v]`
    Prefix,
    /// `[attr$=v]`
    Suffix,
    /// `[attr*=v]`
    Substring,
}

/// A parsed `[attr]` / `[attr op value]` condition.
#[derive(Debug)]
pub struct AttrCond {
    /// Local name, lower-cased.
    pub name: String,
    pub op: AttrMatchOp,
    pub value: String,
    /// Case-insensitive value match (the `i` flag).
    pub ci: bool,
}

pub struct AttrCondV {
    pub name: Seq<char>,
    pub op: AttrMatchOp,
    pub value: Seq<char>,
    pub ci: bool,
}

impl View for AttrCond {
    type V = AttrCondV;

    open spec fn view(&self) -> AttrCondV {
        AttrCondV { name: self.name@, op: self.op, value: self.value@, ci: self.ci }
    }
}

/// A name with its CSS namespace prefix (`*|`, `|` or `ns|`) removed: HTML attributes and
/// elements here carry no namespace, so each of these reduces to the local name.
pub open spec fn local_name(name: Seq<char>) -> Seq<char> {
    if name.len() >= 2 && name[0] == '*' && name[1] == '|' {
        name.skip(2)
    } else if name.len() >= 1 && name[0] == '|' {
        name.skip(1)
    } else {
        match first_char_index(name, '|') {
            Some(bar) => name.skip(bar + 1),
            None => name,
        }
    }
}

/// The index of the first `c` in `s`.
pub open spec fn first_char_index(s: Seq<char>, c: char) -> Option<int>
    decreases s.len(),
{
    if s.len() == 0 {
        None
    } else if s[0] == c {
        Some(0)
    } else {
        match first_char_index(s.drop_first(), c) {
            Some(k) => Some(k + 1),
            None => None,
        }
    }
}

pub(crate) proof fn lemma_first_char_index(s: Seq<char>, c: char)
    ensures
        first_char_index(s, c) matches Some(k) ==> 0 <= k < s.len() && s[k] == c && forall|j: int|
            0 <= j < k ==> s[j] != c,
        first_char_index(s, c) is None ==> forall|j: int| 0 <= j < s.len() ==> s[j] != c,
    decreases s.len(),
{
    if s.len() > 0 && s[0] != c {
        lemma_first_char_index(s.drop_first(), c);
        assert forall|j: int| 0 < j < s.len() implies s[j] == s.drop_first()[j - 1] by {}
    }
}

/// Where `c` first occurs in `v`.
fn find_char(v: &Vec<char>, c: char) -> (r: Option<usize>)
    ensures
        match r {
            Some(k) => first_char_index(v@, c) == Some(k as int),
            None => first_char_index(v@, c) is None,
        },
{
    let mut k: usize = 0;
    assert(v@.skip(0) =~= v@);
    while k < v.len()
        invariant
            0 <= k <= v@.len(),
            first_char_index(v@, c) == match first_char_index(v@.skip(k as int), c) {
                Some(j) => Some(j + k),
                None => None,
            },
        decreases v@.len() - k,
    {
        assert(v@.skip(k as int).drop_first() =~= v@.skip(k + 1));
        if v[k] == c {
            return Some(k);
        }
        k += 1;
    }
    None
}

/// Strip a CSS namespace prefix (`*|`, `|`, or `ns|`) to the local name.
pub fn strip_attr_ns(name: &str) -> (r: &str)
    ensures
        r@ == local_name(name@),
{
    let v = to_chars(name);
    let n = name.unicode_len();
    if v.len() >= 2 && v[0] == '*' && v[1] == '|' {
        name.substring_char(2, n)
    } else if v.len() >= 1 && v[0] == '|' {
        name.substring_char(1, n)
    } else {
        match find_char(&v, '|') {
            Some(bar) => {
                proof {
                    lemma_first_char_index(v@, '|');
                }
                name.substring_char(bar + 1, n)
            },
            None => name,
        }
    }
}

/// An attribute-selector value with matching surrounding quotes removed.
pub open spec fn unquoted(s: Seq<char>) -> Seq<char> {
    let t = trim(s);
    if t.len() >= 2 && (t[0] == '"' || t[0] == '\'') && t[t.len() - 1] == t[0] {
        t.subrange(1, t.len() - 1)
    } else {
        t
    }
}

/// Strip matching surrounding single/double quotes from an attribute-selector value.
pub fn unquote_attr_value(s: &[char]) -> (r: String)
    ensures
        r@ == unquoted(s@),
{
    let t = trim_vec(s);
    let n = t.len();
    if n >= 2 && (t[0] == '"' || t[0] == '\'') && t[n - 1] == t[0] {
        string_from(slice_vec(&t, 1, n - 1).as_slice())
    } else {
        string_from(t.as_slice())
    }
}

/// The condition a parsed `[...]` body describes, or `None` when it names no attribute.
pub open spec fn attr_cond_of(inner: Seq<char>) -> Option<AttrCondV> {
    let s = trim(inner);
    if s.len() == 0 {
        None
    } else {
        match first_char_index(s, '=') {
            Some(eq) => {
                let prev = if eq > 0 {
                    Some(s[eq - 1])
                } else {
                    None
                };
                let (op, name_end) = if prev == Some('~') {
                    (AttrMatchOp::Includes, eq - 1)
                } else if prev == Some('|') {
                    (AttrMatchOp::DashMatch, eq - 1)
                } else if prev == Some('^') {
                    (AttrMatchOp::Prefix, eq - 1)
                } else if prev == Some('$') {
                    (AttrMatchOp::Suffix, eq - 1)
                } else if prev == Some('*') {
                    (AttrMatchOp::Substring, eq - 1)
                } else {
                    (AttrMatchOp::Equals, eq)
                };
                let name = trim(s.take(name_end));
                if name.len() == 0 {
                    None
                } else {
                    let (raw2, ci) = case_flag_split(trim(s.skip(eq + 1)));
                    Some(
                        AttrCondV {
                            name: lower_seq(local_name(name)),
                            op,
                            value: unquoted(raw2),
                            ci,
                        },
                    )
                }
            },
            None => Some(
                AttrCondV {
                    name: lower_seq(local_name(s)),
                    op: AttrMatchOp::Exists,
                    value: seq![],
                    ci: false,
                },
            ),
        }
    }
}

fn lower_string(s: &str) -> (r: String)
    ensures
        r@ == lower_seq(s@),
{
    string_from(lower(&to_chars(s)).as_slice())
}

pub open spec fn case_flag_split(raw: Seq<char>) -> (Seq<char>, bool) {
    if ends_with(raw, " i"@) || ends_with(raw, " I"@) {
        (trim_end(raw.take(raw.len() - 2)), true)
    } else if ends_with(raw, " s"@) || ends_with(raw, " S"@) {
        (trim_end(raw.take(raw.len() - 2)), false)
    } else {
        (raw, false)
    }
}

/// Split off a trailing ` i` / ` s` case-sensitivity flag of an attribute-selector value.
fn strip_case_flag(raw: &Vec<char>) -> (r: (Vec<char>, bool))
    ensures
        (r.0@, r.1) == case_flag_split(raw@),
{
    proof {
        reveal_strlit(" i");
        reveal_strlit(" I");
        reveal_strlit(" s");
        reveal_strlit(" S");
    }
    let rn = raw.len();
    if rn >= 2 {
        assert(raw@.skip(rn - 2) =~= seq![raw@[rn - 2], raw@[rn - 1]]);
    }
    if rn >= 2 && raw[rn - 2] == ' ' && (raw[rn - 1] == 'i' || raw[rn - 1] == 'I') {
        let cut = slice_vec(raw, 0, rn - 2);
        assert(cut@ =~= raw@.take(rn - 2));
        if raw[rn - 1] == 'i' {
            assert(raw@.skip(rn - 2) =~= " i"@);
        } else {
            assert(raw@.skip(rn - 2) =~= " I"@);
        }
        (trim_end_vec(&cut), true)
    } else if rn >= 2 && raw[rn - 2] == ' ' && (raw[rn - 1] == 's' || raw[rn - 1] == 'S') {
        let cut = slice_vec(raw, 0, rn - 2);
        assert(cut@ =~= raw@.take(rn - 2));
        if raw[rn - 1] == 's' {
            assert(raw@.skip(rn - 2) =~= " s"@);
        } else {
            assert(raw@.skip(rn - 2) =~= " S"@);
        }
        assert(!(raw@.skip(rn - 2) == " i"@));
        assert(!(raw@.skip(rn - 2) == " I"@));
        (trim_end_vec(&cut), false)
    } else {
        let all = slice_vec(raw, 0, rn);
        assert(all@ =~= raw@);
        if rn >= 2 {
            assert(!(raw@.skip(rn - 2) == " i"@));
            assert(!(raw@.skip(rn - 2) == " I"@));
            assert(!(raw@.skip(rn - 2) == " s"@));
            assert(!(raw@.skip(rn - 2) == " S"@));
        }
        (all, false)
    }
}

/// Parse the inside of an attribute selector `[...]` into an [`AttrCond`].
pub fn parse_attr_cond(inner: &str) -> (r: Option<AttrCond>)
    ensures
        match r {
            Some(c) => attr_cond_of(inner@) == Some(c@),
            None => attr_cond_of(inner@) is None,
        },
{
    let s = trim_vec(&to_chars(inner));
    if s.len() == 0 {
        return None;
    }
    match find_char(&s, '=') {
        Some(eq) => {
            proof {
                lemma_first_char_index(s@, '=');
            }
            // The operator is `=` optionally prefixed by one of ~ | ^ $ * (immediately before it).
            let prev: Option<char> = if eq > 0 {
                Some(s[eq - 1])
            } else {
                None
            };
            let (op, name_end) = if prev == Some('~') {
                (AttrMatchOp::Includes, eq - 1)
            } else if prev == Some('|') {
                (AttrMatchOp::DashMatch, eq - 1)
            } else if prev == Some('^') {
                (AttrMatchOp::Prefix, eq - 1)
            } else if prev == Some('$') {
                (AttrMatchOp::Suffix, eq - 1)
            } else if prev == Some('*') {
                (AttrMatchOp::Substring, eq - 1)
            } else {
                (AttrMatchOp::Equals, eq)
            };
            let name = trim_vec(slice_vec(&s, 0, name_end).as_slice());
            assert(s@.subrange(0, name_end as int) =~= s@.take(name_end as int));
            if name.len() == 0 {
                return None;
            }
            let raw0 = trim_vec(slice_vec(&s, eq + 1, s.len()).as_slice());
            assert(s@.subrange(eq + 1, s@.len() as int) =~= s@.skip(eq + 1));
            // Optional trailing case-sensitivity flag (whitespace-separated `i`/`s`).
            let (raw, ci) = strip_case_flag(&raw0);
            let value = unquote_attr_value(&raw);
            let name_s = string_from(name.as_slice());
            let local = strip_attr_ns(name_s.as_str());
            Some(AttrCond { name: lower_string(local), op, value, ci })
        },
        None => {
            let whole = string_from(s.as_slice());
            let local = strip_attr_ns(whole.as_str());
            Some(
                AttrCond {
                    name: lower_string(local),
                    op: AttrMatchOp::Exists,
                    value: String::new(),
                    ci: false,
                },
            )
        },
    }
}

/// `str::trim_end` on a character vector.
fn trim_end_vec(v: &Vec<char>) -> (r: Vec<char>)
    ensures
        r@ == trim_end(v@),
{
    let mut hi = v.len();
    assert(v@.take(hi as int) =~= v@);
    while hi > 0 && is_whitespace(v[hi - 1])
        invariant
            hi <= v@.len(),
            trim_end(v@) == trim_end(v@.take(hi as int)),
        decreases hi,
    {
        assert(v@.take(hi as int).drop_last() =~= v@.take(hi - 1));
        hi -= 1;
    }
    slice_vec(v, 0, hi)
}

/// The value of the first attribute whose name equals `name` ignoring ASCII case.
pub open spec fn attr_value_ci(attrs: Seq<(String, String)>, name: Seq<char>) -> Option<Seq<char>>
    decreases attrs.len(),
{
    if attrs.len() == 0 {
        None
    } else if lower_seq(attrs[0].0@) == lower_seq(name) {
        Some(attrs[0].1@)
    } else {
        attr_value_ci(attrs.drop_first(), name)
    }
}

/// `needle` occurs in `hay`.
pub open spec fn contains_seq(hay: Seq<char>, needle: Seq<char>) -> bool {
    exists|i: int| 0 <= i && i + needle.len() <= hay.len() && #[trigger] hay.subrange(i, i + needle.len()) == needle
}

/// An attribute condition holds of an element's attributes.
pub open spec fn attr_cond_holds(attrs: Seq<(String, String)>, a: AttrCondV) -> bool {
    match attr_value_ci(attrs, a.name) {
        None => false,
        Some(val) => {
            let hay = if a.ci {
                lower_seq(val)
            } else {
                val
            };
            let needle = if a.ci {
                lower_seq(a.value)
            } else {
                a.value
            };
            match a.op {
                AttrMatchOp::Exists => true,
                AttrMatchOp::Equals => hay == needle,
                AttrMatchOp::Includes => needle.len() > 0 && split_ws(hay).contains(needle),
                AttrMatchOp::DashMatch => hay == needle || starts_with(hay, needle + "-"@),
                AttrMatchOp::Prefix => needle.len() > 0 && starts_with(hay, needle),
                AttrMatchOp::Suffix => needle.len() > 0 && ends_with(hay, needle),
                AttrMatchOp::Substring => needle.len() > 0 && contains_seq(hay, needle),
            }
        },
    }
}

pub(crate) fn find_attr_ci(attrs: &Vec<(String, String)>, name: &str) -> (r: Option<usize>)
    ensures
        match r {
            Some(i) => i < attrs@.len() && attr_value_ci(attrs@, name@) == Some(attrs@[i as int].1@),
            None => attr_value_ci(attrs@, name@) is None,
        },
{
    let ln = lower(&to_chars(name));
    let mut i: usize = 0;
    assert(attrs@.skip(0) =~= attrs@);
    while i < attrs.len()
        invariant
            0 <= i <= attrs@.len(),
            ln@ == lower_seq(name@),
            attr_value_ci(attrs@, name@) == attr_value_ci(attrs@.skip(i as int), name@),
        decreases attrs@.len() - i,
    {
        assert(attrs@.skip(i as int).drop_first() =~= attrs@.skip(i + 1));
        let k = lower(&to_chars(attrs[i].0.as_str()));
        if seq_eq(&k, &ln) {
            return Some(i);
        }
        i += 1;
    }
    None
}

fn contains_chars(hay: &Vec<char>, needle: &Vec<char>) -> (r: bool)
    ensures
        r == contains_seq(hay@, needle@),
{
    let h = hay.len();
    let n = needle.len();
    if n > h {
        return false;
    }
    if n == 0 {
        assert(hay@.subrange(0int, 0int + needle@.len()) =~= needle@);
        return true;
    }
    let mut i: usize = 0;
    while i <= h - n
        invariant
            1 <= n <= h,
            h == hay@.len(),
            n == needle@.len(),
            0 <= i <= h - n + 1,
            forall|j: int| 0 <= j < i ==> #[trigger] hay@.subrange(j, j + n) != needle@,
        decreases h - n + 1 - i,
    {
        let piece = slice_vec(hay, i, i + n);
        if seq_eq(&piece, needle) {
            return true;
        }
        i += 1;
    }
    false
}

fn words_contain(words: &Vec<Vec<char>>, w: &Vec<char>) -> (r: bool)
    ensures
        r == views(words@).contains(w@),
{
    let mut i: usize = 0;
    while i < words.len()
        invariant
            0 <= i <= words@.len(),
            forall|j: int| 0 <= j < i ==> views(words@)[j] != w@,
        decreases words@.len() - i,
    {
        if seq_eq(&words[i], w) {
            assert(views(words@)[i as int] == w@);
            return true;
        }
        i += 1;
    }
    false
}

/// Match an [`AttrCond`] against an element.
pub fn attr_cond_matches(e: &ElementData, a: &AttrCond) -> (r: bool)
    ensures
        r == attr_cond_holds(e.attrs@, a@),
{
    let val = match find_attr_ci(&e.attrs, a.name.as_str()) {
        Some(i) => e.attrs[i].1.as_str(),
        None => {
            return false;
        },
    };
    if a.op == AttrMatchOp::Exists {
        return true;
    }
    let (hay, needle) = if a.ci {
        (lower(&to_chars(val)), lower(&to_chars(a.value.as_str())))
    } else {
        (to_chars(val), to_chars(a.value.as_str()))
    };
    match a.op {
        AttrMatchOp::Exists => true,
        AttrMatchOp::Equals => seq_eq(&hay, &needle),
        AttrMatchOp::Includes => needle.len() > 0 && words_contain(&split_whitespace(&hay), &needle),
        AttrMatchOp::DashMatch => {
            let mut dashed = needle.clone();
            dashed.push('-');
            proof {
                reveal_strlit("-");
                assert(dashed@ =~= needle@ + "-"@);
            }
            seq_eq(&hay, &needle) || has_prefix(&hay, &dashed)
        },
        AttrMatchOp::Prefix => needle.len() > 0 && has_prefix(&hay, &needle),
        AttrMatchOp::Suffix => needle.len() > 0 && has_suffix(&hay, &needle),
        AttrMatchOp::Substring => needle.len() > 0 && contains_chars(&hay, &needle),
    }
}

/// Is `c` a CSS hex digit?
pub fn is_hex(c: char) -> (r: bool)
    ensures
        r == is_hex_digit(c),
{
    is_ascii_hexdigit(c)
}

// ---------------------------------------------------------------------------------------------
// Identifiers
// ---------------------------------------------------------------------------------------------

/// An unescaped selector delimiter ends an identifier.
pub open spec fn ident_stop(c: char) -> bool {
    c == '.' || c == '#' || c == '[' || c == ':' || c == '>' || c == '+' || c == '~' || c == ','
        || is_ws(c)
}

/// Reading a CSS identifier from `i`: its unescaped value and the index just past it. Escapes
/// are `\` + 1-6 hex digits (with an optional single trailing ASCII whitespace), or `\` + any
/// other character taken literally.
pub open spec fn ident_from(s: Seq<char>, i: int) -> (Seq<char>, int)
    decreases s.len() - i,
{
    if i < 0 || i >= s.len() {
        (seq![], i)
    } else if s[i] == '\\' {
        if i + 1 >= s.len() {
            (seq![], i + 1)
        } else if is_hex_digit(s[i + 1]) {
            proof {
                lemma_hex_len_bound(s.skip(i + 1), 6);
            }
            let h = hex_len(s.skip(i + 1), 6) as int;
            let after = i + 1 + h;
            let skip = if after < s.len() && is_ascii_ws(s[after]) {
                1int
            } else {
                0int
            };
            let c = escaped_char(hex_value(s.subrange(i + 1, after)));
            let (rest, end) = ident_from(s, after + skip);
            (seq![c] + rest, end)
        } else {
            let (rest, end) = ident_from(s, i + 2);
            (seq![s[i + 1]] + rest, end)
        }
    } else if ident_stop(s[i]) {
        (seq![], i)
    } else {
        let (rest, end) = ident_from(s, i + 1);
        (seq![s[i]] + rest, end)
    }
}

pub proof fn lemma_ident_end(s: Seq<char>, i: int)
    requires
        0 <= i,
    ensures
        i <= ident_from(s, i).1,
        i < s.len() ==> ident_from(s, i).1 <= s.len(),
        ident_from(s, i).1 == i ==> ident_from(s, i).0.len() == 0,
    decreases s.len() - i,
{
    if i < s.len() {
        if s[i] == '\\' {
            if i + 1 < s.len() {
                if is_hex_digit(s[i + 1]) {
                    lemma_hex_len_bound(s.skip(i + 1), 6);
                    let h = hex_len(s.skip(i + 1), 6) as int;
                    let after = i + 1 + h;
                    let skip = if after < s.len() && is_ascii_ws(s[after]) {
                        1int
                    } else {
                        0int
                    };
                    lemma_ident_end(s, after + skip);
                } else {
                    lemma_ident_end(s, i + 2);
                }
            }
        } else if !ident_stop(s[i]) {
            lemma_ident_end(s, i + 1);
        }
    }
}

fn char_of_code(cp: u32) -> (r: char)
    ensures
        r == escaped_char(cp as nat),
{
    if cp == 0 || cp > 0x10FFFF || (0xD800 <= cp && cp <= 0xDFFF) {
        '\u{FFFD}'
    } else {
        match char_from_u32(cp) {
            Some(c) => c,
            None => '\u{FFFD}',
        }
    }
}

fn hex_digit_of(c: char) -> (r: u32)
    requires
        is_hex_digit(c),
    ensures
        r == crate::serialize::hex_digit_value(c),
        r < 16,
{
    if '0' <= c && c <= '9' {
        (c as u32) - ('0' as u32)
    } else if 'a' <= c && c <= 'f' {
        (c as u32) - ('a' as u32) + 10
    } else {
        (c as u32) - ('A' as u32) + 10
    }
}

/// Read a CSS identifier (class / id / type name) starting at `i`, consuming CSS escape
/// sequences. Stops at an unescaped selector delimiter (`.` `#` `[` `:` `>` `+` `~` `,` or
/// whitespace). Returns the unescaped value and the index just past the identifier.
pub fn read_css_ident(bytes: &[char], i: usize) -> (r: (String, usize))
    ensures
        (r.0@, r.1 as int) == ident_from(bytes@, i as int),
{
    let n = bytes.len();
    let mut out = String::new();
    let mut i = i;
    let ghost i0 = i as int;
    while i < n
        invariant
            n == bytes@.len(),
            ident_from(bytes@, i0) == (out@ + ident_from(bytes@, i as int).0, ident_from(
                bytes@,
                i as int,
            ).1),
        ensures
            ident_from(bytes@, i as int) == (Seq::<char>::empty(), i as int),
            ident_from(bytes@, i0) == (out@ + ident_from(bytes@, i as int).0, ident_from(
                bytes@,
                i as int,
            ).1),
        decreases n - i,
    {
        let ghost before = out@;
        let ghost s = bytes@;
        let ch = bytes[i];
        if ch == '\\' {
            // Escape sequence.
            if i + 1 >= n {
                i += 1;
                assert(ident_from(s, (i - 1) as int) == (Seq::<char>::empty(), i as int));
                assert(before + Seq::<char>::empty() =~= before);
                assert(ident_from(s, i as int) == (Seq::<char>::empty(), i as int));
                break;
            }
            let nx = bytes[i + 1];
            if is_hex(nx) {
                let ghost i_esc = i as int;
                let start = i + 1;
                let ghost h = hex_len(s.skip(start as int), 6) as int;
                proof {
                    lemma_hex_len_bound(s.skip(start as int), 6);
                }
                let mut cp: u32 = 0;
                let mut k: usize = 0;
                i = start;
                while i < n && k < 6 && is_hex(bytes[i])
                    invariant
                        n == bytes@.len(),
                        s == bytes@,
                        start < n,
                        start <= i <= n,
                        k == i - start,
                        k <= 6,
                        h == hex_len(s.skip(start as int), 6),
                        h == k + hex_len(s.skip(i as int), (6 - k) as nat),
                        cp == hex_value(s.subrange(start as int, i as int)),
                        cp < pow16(k as nat),
                    decreases n - i,
                {
                    let d = hex_digit_of(bytes[i]);
                    assert(s.skip(i as int)[0] == s[i as int]);
                    assert(s.skip(i as int).drop_first() =~= s.skip(i + 1));
                    assert(s.subrange(start as int, i + 1).drop_last() =~= s.subrange(
                        start as int,
                        i as int,
                    ));
                    proof {
                        reveal_with_fuel(pow16, 7);
                    }
                    cp = cp * 16 + d;
                    k += 1;
                    i += 1;
                }
                assert(hex_len(s.skip(i as int), (6 - k) as nat) == 0);
                if i < n && is_ascii_whitespace(bytes[i]) {
                    i += 1;
                }
                push_char(&mut out, char_of_code(cp));
                assert(out@ =~= before + seq![escaped_char(hex_value(s.subrange(start as int, start + h)))]);
            } else {
                push_char(&mut out, nx);
                i += 2;
            }
        } else if ch == '.' || ch == '#' || ch == '[' || ch == ':' || ch == '>' || ch == '+' || ch
            == '~' || ch == ',' || is_whitespace(ch) {
            assert(before + Seq::<char>::empty() =~= before);
            break;
        } else {
            push_char(&mut out, ch);
            i += 1;
        }
        assert(ident_from(s, i0) == (out@ + ident_from(s, i as int).0, ident_from(s, i as int).1)) by {
            let (rest, end) = ident_from(s, i as int);
            assert(before + (out@.skip(before.len() as int) + rest) =~= out@ + rest);
        }
    }
    assert(out@ + Seq::<char>::empty() =~= out@);
    (out, i)
}

// ---------------------------------------------------------------------------------------------
// Compound selectors
// ---------------------------------------------------------------------------------------------

/// A single compound selector, e.g. `div.foo#bar[disabled]`.
#[derive(Debug)]
pub struct Compound {
    pub tag: Option<String>,
    pub id: Option<String>,
    pub classes: Vec<String>,
    pub attrs: Vec<AttrCond>,
    /// Whether anything was parsed at all.
    pub any: bool,
}

pub struct CompoundV {
    pub tag: Option<Seq<char>>,
    pub id: Option<Seq<char>>,
    pub classes: Seq<Seq<char>>,
    pub attrs: Seq<AttrCondV>,
    pub any: bool,
}

pub open spec fn opt_view(o: Option<String>) -> Option<Seq<char>> {
    match o {
        Some(s) => Some(s@),
        None => None,
    }
}

impl View for Compound {
    type V = CompoundV;

    open spec fn view(&self) -> CompoundV {
        CompoundV {
            tag: opt_view(self.tag),
            id: opt_view(self.id),
            classes: str_views(self.classes@),
            attrs: self.attrs@.map_values(|a: AttrCond| a@),
            any: self.any,
        }
    }
}

pub open spec fn empty_compound() -> CompoundV {
    CompoundV { tag: None, id: None, classes: seq![], attrs: seq![], any: false }
}

/// The first index at or after `j` holding `]` (or the end).
pub open spec fn bracket_end(s: Seq<char>, j: int) -> int
    decreases s.len() - j,
{
    if j < 0 || j >= s.len() || s[j] == ']' {
        j
    } else {
        bracket_end(s, j + 1)
    }
}

/// Skipping a parenthesized argument whose `depth` parentheses are open at `k`.
pub open spec fn paren_end(s: Seq<char>, k: int, depth: nat) -> int
    decreases s.len() - k,
{
    if k < 0 || k >= s.len() || depth == 0 {
        k
    } else {
        paren_end(
            s,
            k + 1,
            if s[k] == '(' {
                depth + 1
            } else if s[k] == ')' {
                (depth - 1) as nat
            } else {
                depth
            },
        )
    }
}

pub open spec fn compound_stop(c: char) -> bool {
    c == '.' || c == '#' || c == '[' || c == ':'
}

/// Skipping a pseudo-class / pseudo-element name and its arguments, from `k`.
pub open spec fn pseudo_end(s: Seq<char>, k: int) -> int
    decreases s.len() - k,
{
    if k < 0 || k >= s.len() || compound_stop(s[k]) {
        k
    } else if s[k] == '(' {
        proof {
            lemma_paren_end(s, k + 1, 1);
        }
        pseudo_end(s, paren_end(s, k + 1, 1))
    } else {
        pseudo_end(s, k + 1)
    }
}

pub proof fn lemma_paren_end(s: Seq<char>, k: int, depth: nat)
    ensures
        k <= paren_end(s, k, depth),
        0 <= k <= s.len() ==> paren_end(s, k, depth) <= s.len(),
    decreases s.len() - k,
{
    if !(k < 0 || k >= s.len() || depth == 0) {
        lemma_paren_end(
            s,
            k + 1,
            if s[k] == '(' {
                depth + 1
            } else if s[k] == ')' {
                (depth - 1) as nat
            } else {
                depth
            },
        );
    }
}

pub proof fn lemma_pseudo_end(s: Seq<char>, k: int)
    ensures
        k <= pseudo_end(s, k),
        0 <= k <= s.len() ==> pseudo_end(s, k) <= s.len(),
    decreases s.len() - k,
{
    if !(k < 0 || k >= s.len() || compound_stop(s[k])) {
        if s[k] == '(' {
            lemma_paren_end(s, k + 1, 1);
            lemma_pseudo_end(s, paren_end(s, k + 1, 1));
        } else {
            lemma_pseudo_end(s, k + 1);
        }
    }
}

pub proof fn lemma_bracket_end(s: Seq<char>, j: int)
    ensures
        j <= bracket_end(s, j),
        0 <= j <= s.len() ==> bracket_end(s, j) <= s.len(),
        0 <= j ==> bracket_end(s, j) < s.len() ==> s[bracket_end(s, j)] == ']',
    decreases s.len() - j,
{
    if !(j < 0 || j >= s.len() || s[j] == ']') {
        lemma_bracket_end(s, j + 1);
    }
}

/// Parsing a compound selector from `i` with `c` parsed so far; `None` when a `.` or `#` is not
/// followed by a name, or when nothing at all was parsed.
pub open spec fn compound_from(s: Seq<char>, i: int, c: CompoundV) -> Option<CompoundV>
    decreases s.len() - i,
{
    if i < 0 || i >= s.len() {
        if c.any {
            Some(c)
        } else {
            None
        }
    } else {
        let ch = s[i];
        if ch == '.' || ch == '#' {
            proof {
                lemma_ident_end(s, i + 1);
            }
            let (name, ni) = ident_from(s, i + 1);
            if name.len() == 0 {
                None
            } else if ch == '.' {
                compound_from(s, ni, CompoundV { classes: c.classes.push(name), any: true, ..c })
            } else {
                compound_from(s, ni, CompoundV { id: Some(name), any: true, ..c })
            }
        } else if ch == '[' {
            proof {
                lemma_bracket_end(s, i + 1);
            }
            let j = bracket_end(s, i + 1);
            let inner = s.subrange(i + 1, j);
            let ni = if j < s.len() {
                j + 1
            } else {
                j
            };
            let attrs = match attr_cond_of(inner) {
                Some(a) => c.attrs.push(a),
                None => c.attrs,
            };
            compound_from(s, ni, CompoundV { attrs: attrs, any: true, ..c })
        } else if ch == ':' {
            let k = if i + 1 < s.len() && s[i + 1] == ':' {
                i + 2
            } else {
                i + 1
            };
            proof {
                lemma_pseudo_end(s, k);
            }
            compound_from(s, pseudo_end(s, k), CompoundV { any: true, ..c })
        } else {
            proof {
                lemma_ident_end(s, i);
            }
            let (tag, ni) = ident_from(s, i);
            if ni == i {
                compound_from(s, i + 1, c)
            } else {
                let t = local_name(trim(tag));
                if t.len() > 0 {
                    compound_from(s, ni, CompoundV { tag: Some(t), any: true, ..c })
                } else {
                    compound_from(s, ni, c)
                }
            }
        }
    }
}

/// The compound selector `s` denotes.
pub open spec fn compound_of(s: Seq<char>) -> Option<CompoundV> {
    let t = trim(s);
    if t.len() == 0 {
        None
    } else {
        compound_from(t, 0, empty_compound())
    }
}

fn push_string_view(v: &mut Vec<String>, x: String)
    ensures
        str_views(final(v)@) == str_views(old(v)@).push(x@),
{
    v.push(x);
    assert(str_views(v@) =~= str_views(old(v)@).push(x@));
}

/// Parse a single compound selector (no combinators).
pub fn parse_compound(s: &str) -> (r: Option<Compound>)
    ensures
        match r {
            Some(c) => compound_of(s@) == Some(c@),
            None => compound_of(s@) is None,
        },
{
    let t = trim_vec(&to_chars(s));
    let n = t.len();
    if n == 0 {
        return None;
    }
    let mut c = Compound { tag: None, id: None, classes: Vec::new(), attrs: Vec::new(), any: false };
    assert(c@.classes =~= Seq::<Seq<char>>::empty());
    assert(c@.attrs =~= Seq::<AttrCondV>::empty());
    assert(c@ == empty_compound());
    let mut i: usize = 0;
    while i < n
        invariant
            n == t@.len(),
            t@ == trim(s@),
            0 <= i <= n,
            compound_of(s@) == compound_from(t@, i as int, c@),
        decreases n - i,
    {
        let ch = t[i];
        if ch == '.' || ch == '#' {
            let (name, ni) = read_css_ident(t.as_slice(), i + 1);
            proof {
                lemma_ident_end(t@, i + 1);
            }
            if name.unicode_len() == 0 {
                return None;
            }
            if ch == '.' {
                push_string_view(&mut c.classes, name);
            } else {
                c.id = Some(name);
            }
            c.any = true;
            i = ni;
        } else if ch == '[' {
            i += 1;
            let start = i;
            proof {
                lemma_bracket_end(t@, start as int);
            }
            while i < n && t[i] != ']'
                invariant
                    n == t@.len(),
                    start <= i <= n,
                    bracket_end(t@, start as int) == bracket_end(t@, i as int),
                decreases n - i,
            {
                i += 1;
            }
            let inner = string_from(slice_vec(&t, start, i).as_slice());
            if i < n {
                i += 1;
            }
            let ghost before = c@.attrs;
            if let Some(cond) = parse_attr_cond(inner.as_str()) {
                c.attrs.push(cond);
                assert(c@.attrs =~= before.push(cond@));
            }
            c.any = true;
        } else if ch == ':' {
            i += 1;
            if i < n && t[i] == ':' {
                i += 1;
            }
            let ghost k = i as int;
            proof {
                lemma_pseudo_end(t@, k);
            }
            while i < n && !(t[i] == '.' || t[i] == '#' || t[i] == '[' || t[i] == ':')
                invariant
                    n == t@.len(),
                    k <= i <= n,
                    pseudo_end(t@, k) == pseudo_end(t@, i as int),
                decreases n - i,
            {
                if t[i] == '(' {
                    let mut depth: usize = 1;
                    i += 1;
                    let ghost p0 = i as int;
                    proof {
                        lemma_paren_end(t@, p0, 1);
                    }
                    while i < n && depth > 0
                        invariant
                            n == t@.len(),
                            p0 <= i <= n,
                            depth <= i,
                            paren_end(t@, p0, 1) == paren_end(t@, i as int, depth as nat),
                        decreases n - i,
                    {
                        if t[i] == '(' {
                            depth += 1;
                        } else if t[i] == ')' {
                            depth -= 1;
                        }
                        i += 1;
                    }
                } else {
                    i += 1;
                }
            }
            c.any = true;
        } else {
            let (tag, ni) = read_css_ident(t.as_slice(), i);
            proof {
                lemma_ident_end(t@, i as int);
            }
            if ni == i {
                // Not a valid identifier start (e.g. a stray char): skip it.
                i += 1;
                continue;
            }
            i = ni;
            let tt = string_from(trim_vec(&to_chars(tag.as_str())).as_slice());
            let local = strip_attr_ns(tt.as_str());
            if local.unicode_len() > 0 {
                c.tag = Some(string_of(local));
                c.any = true;
            }
        }
    }
    if c.any {
        Some(c)
    } else {
        None
    }
}

/// Compound selector `c` matches node `i`.
pub open spec fn compound_matches(nodes: Seq<Node>, i: int, c: CompoundV) -> bool {
    match nodes[i].data {
        NodeData::Element(e) => {
            &&& (c.tag matches Some(t) ==> t == "*"@ || lower_seq(e.tag@) == lower_seq(t))
            &&& (c.id matches Some(id) ==> attr_value(e.attrs@, "id"@) == Some(id))
            &&& forall|k: int|
                0 <= k < c.classes.len() ==> class_list(e.attrs@).contains(#[trigger] c.classes[k])
            &&& forall|k: int| 0 <= k < c.attrs.len() ==> attr_cond_holds(e.attrs@, #[trigger] c.attrs[k])
        },
        _ => false,
    }
}

/// A compound selector matches only elements, and only those that carry every one of its
/// classes, its id (if it names one) and every one of its attribute conditions.
pub proof fn law_compound_requires_every_class(nodes: Seq<Node>, i: int, c: CompoundV)
    ensures
        compound_matches(nodes, i, c) ==> (nodes[i].data matches NodeData::Element(e) && (forall|k: int|
            0 <= k < c.classes.len() ==> class_list(e.attrs@).contains(#[trigger] c.classes[k]))
            && (c.id matches Some(id) ==> attr_value(e.attrs@, "id"@) == Some(id)) && (forall|k: int|
            0 <= k < c.attrs.len() ==> attr_cond_holds(e.attrs@, #[trigger] c.attrs[k]))),
{
}

/// Adding a class to a compound selector narrows it to the elements it matched that also carry
/// that class: `.a.b` matches exactly what `.a` matches and has class `b`.
pub proof fn law_adding_a_class_narrows(nodes: Seq<Node>, i: int, c: CompoundV, x: Seq<char>)
    ensures
        compound_matches(nodes, i, CompoundV { classes: c.classes.push(x), ..c }) == (compound_matches(
            nodes,
            i,
            c,
        ) && (nodes[i].data matches NodeData::Element(e) && class_list(e.attrs@).contains(x))),
{
    let c2 = CompoundV { classes: c.classes.push(x), ..c };
    assert(c2.attrs == c.attrs && c2.tag == c.tag && c2.id == c.id);
    if let NodeData::Element(e) = nodes[i].data {
        if compound_matches(nodes, i, c2) {
            assert(c2.classes[c.classes.len() as int] == x);
            assert forall|k: int| 0 <= k < c.classes.len() implies class_list(e.attrs@).contains(
                #[trigger] c.classes[k],
            ) by {
                assert(c2.classes[k] == c.classes[k]);
            }
            assert(compound_matches(nodes, i, c));
        }
        if compound_matches(nodes, i, c) && class_list(e.attrs@).contains(x) {
            assert forall|k: int| 0 <= k < c2.classes.len() implies class_list(e.attrs@).contains(
                #[trigger] c2.classes[k],
            ) by {
                if k < c.classes.len() {
                    assert(c2.classes[k] == c.classes[k]);
                } else {
                    assert(c2.classes[k] == x);
                }
            }
            assert(compound_matches(nodes, i, c2));
        }
    }
}

fn strings_contain(v: &Vec<String>, x: &String) -> (r: bool)
    ensures
        r == str_views(v@).contains(x@),
{
    let xv = to_chars(x.as_str());
    let mut i: usize = 0;
    while i < v.len()
        invariant
            xv@ == x@,
            0 <= i <= v@.len(),
            forall|j: int| 0 <= j < i ==> str_views(v@)[j] != x@,
        decreases v@.len() - i,
    {
        if seq_eq(&to_chars(v[i].as_str()), &xv) {
            assert(str_views(v@)[i as int] == x@);
            return true;
        }
        i += 1;
    }
    false
}

impl Compound {
    /// Whether this compound selector matches `node`.
    pub fn matches(&self, doc: &Document, node: NodeId) -> (r: bool)
        requires
            node.0 < doc@.len(),
        ensures
            r == compound_matches(doc@, node.0 as int, self@),
    {
        let e = match &doc.get(node).data {
            NodeData::Element(e) => e,
            _ => {
                return false;
            },
        };
        if let Some(tag) = &self.tag {
            if !crate::text::eq_str(&to_chars(tag.as_str()), "*") && !eq_ignore_case(e.tag.as_str(), tag.as_str()) {
                return false;
            }
        }
        if let Some(id) = &self.id {
            match e.id() {
                Some(v) => {
                    if !seq_eq(&to_chars(v), &to_chars(id.as_str())) {
                        return false;
                    }
                },
                None => {
                    return false;
                },
            }
        }
        let classes = e.classes();
        let mut k: usize = 0;
        while k < self.classes.len()
            invariant
                node.0 < doc@.len(),
                doc@[node.0 as int].data == NodeData::Element(*e),
                0 <= k <= self.classes@.len(),
                str_views(classes@) == class_list(e.attrs@),
                forall|j: int|
                    0 <= j < k ==> class_list(e.attrs@).contains(#[trigger] self@.classes[j]),
            decreases self.classes@.len() - k,
        {
            assert(self@.classes[k as int] == self.classes@[k as int]@);
            if !strings_contain(&classes, &self.classes[k]) {
                assert(!class_list(e.attrs@).contains(self@.classes[k as int]));
                return false;
            }
            k += 1;
        }
        let mut k: usize = 0;
        while k < self.attrs.len()
            invariant
                node.0 < doc@.len(),
                doc@[node.0 as int].data == NodeData::Element(*e),
                0 <= k <= self.attrs@.len(),
                forall|j: int| 0 <= j < k ==> attr_cond_holds(e.attrs@, #[trigger] self@.attrs[j]),
            decreases self.attrs@.len() - k,
        {
            assert(self@.attrs[k as int] == self.attrs@[k as int]@);
            if !attr_cond_matches(e, &self.attrs[k]) {
                assert(!attr_cond_holds(e.attrs@, self@.attrs[k as int]));
                return false;
            }
            k += 1;
        }
        true
    }
}

// ---------------------------------------------------------------------------------------------
// Complex selectors
// ---------------------------------------------------------------------------------------------

/// A CSS combinator between two compound selectors.
#[derive(Clone, Copy, PartialEq, Eq, Debug, Structural)]
pub enum Combinator {
    /// `A B`
    Descendant,
    /// `A > B`
    Child,
    /// `A + B`
    NextSibling,
    /// `A ~ B`
    SubsequentSibling,
}

pub open spec fn elem_pred(nodes: Seq<Node>) -> spec_fn(NodeId) -> bool {
    |c: NodeId| 0 <= c.0 < nodes.len() && nodes[c.0 as int].data is Element
}

/// The previous element sibling of node `i` (skipping text / comment nodes): the last element
/// before the first occurrence of `i` in its parent's child list.
pub open spec fn prev_elem(nodes: Seq<Node>, i: int) -> Option<NodeId> {
    match nodes[i].parent {
        None => None,
        Some(p) => {
            let sibs = nodes[p.0 as int].children@;
            match first_index(sibs, NodeId(i as usize)) {
                None => None,
                Some(pos) => last_match(sibs.take(pos), elem_pred(nodes)),
            }
        },
    }
}

proof fn lemma_last_match_in(s: Seq<NodeId>, p: spec_fn(NodeId) -> bool)
    ensures
        last_match(s, p) matches Some(x) ==> s.contains(x) && p(x),
    decreases s.len(),
{
    if s.len() > 0 && !p(s.last()) {
        lemma_last_match_in(s.drop_last(), p);
        if let Some(x) = last_match(s.drop_last(), p) {
            let j = choose|j: int| 0 <= j < s.drop_last().len() && s.drop_last()[j] == x;
            assert(s[j] == x);
        }
    } else if s.len() > 0 {
        assert(s[s.len() - 1] == s.last());
    }
}

/// The previous element sibling of `node`, if any.
pub fn prev_element_sibling(doc: &Document, node: NodeId) -> (r: Option<NodeId>)
    requires
        doc.wf(),
        node.0 < doc@.len(),
    ensures
        r == prev_elem(doc@, node.0 as int),
        r matches Some(x) ==> x.0 < doc@.len() && doc@[x.0 as int].data is Element,
{
    let parent = match doc.get(node).parent {
        Some(p) => p,
        None => {
            return None;
        },
    };
    let siblings = &doc.get(parent).children;
    let pos = match index_in(siblings, node) {
        Some(k) => k,
        None => {
            return None;
        },
    };
    proof {
        lemma_first_index(siblings@, node);
    }
    let ghost pred = elem_pred(doc@);
    let mut k = pos;
    assert(siblings@.take(pos as int).take(k as int) =~= siblings@.take(pos as int));
    while k > 0
        invariant
            doc.wf(),
            node.0 < doc@.len(),
            doc@[node.0 as int].parent == Some(parent),
            first_index(siblings@, node) == Some(pos as int),
            parent.0 < doc@.len(),
            *siblings == doc@[parent.0 as int].children,
            k <= pos <= siblings@.len(),
            pred == elem_pred(doc@),
            last_match(siblings@.take(pos as int), pred) == last_match(
                siblings@.take(pos as int).take(k as int),
                pred,
            ),
        decreases k,
    {
        let ghost t = siblings@.take(pos as int);
        assert(t.take(k as int).drop_last() =~= t.take(k - 1));
        assert(t.take(k as int).last() == siblings@[k - 1]);
        let sib = siblings[k - 1];
        assert(deeper(doc@, parent.0 as int, sib.0 as int));
        if let NodeData::Element(_) = &doc.get(sib).data {
            assert(pred(sib));
            assert(NodeId(node.0 as int as usize) == node);
            return Some(sib);
        }
        k -= 1;
    }
    None
}

/// A complex selector over views: `(combinator to the previous compound, compound)` pairs.
pub open spec fn chain_view(c: Seq<(Combinator, Compound)>) -> Seq<(Combinator, CompoundV)> {
    c.map_values(|p: (Combinator, Compound)| (p.0, p.1@))
}

/// Node `i` matches the complex selector `chain`, matched right to left with backtracking for
/// the descendant and subsequent-sibling combinators.
pub open spec fn chain_matches(nodes: Seq<Node>, i: int, chain: Seq<(Combinator, CompoundV)>) -> bool
    decreases chain.len(), 0int, 0int,
{
    let n = chain.len();
    if n == 0 || !(0 <= i < nodes.len()) {
        false
    } else if !compound_matches(nodes, i, chain[n - 1].1) {
        false
    } else if n == 1 {
        true
    } else {
        let rest = chain.take(n - 1);
        match chain[n - 1].0 {
            Combinator::Child => match nodes[i].parent {
                Some(p) => chain_matches(nodes, p.0 as int, rest),
                None => false,
            },
            Combinator::NextSibling => match prev_elem(nodes, i) {
                Some(s) => chain_matches(nodes, s.0 as int, rest),
                None => false,
            },
            Combinator::Descendant => ancestor_matches(nodes, nodes[i].parent, rest, nodes.len()),
            Combinator::SubsequentSibling => sibling_matches(
                nodes,
                prev_elem(nodes, i),
                rest,
                nodes.len(),
            ),
        }
    }
}

/// Some ancestor-or-self of `cur`, walking up parent links, matches `rest`. The walk takes at
/// most `fuel` steps; started with the arena's size, it only runs out on a parent chain that
/// cycles.
pub open spec fn ancestor_matches(
    nodes: Seq<Node>,
    cur: Option<NodeId>,
    rest: Seq<(Combinator, CompoundV)>,
    fuel: nat,
) -> bool
    decreases rest.len(), 1int, fuel,
{
    match cur {
        None => false,
        Some(p) => chain_matches(nodes, p.0 as int, rest) || (fuel > 0 && 0 <= p.0 < nodes.len()
            && ancestor_matches(nodes, nodes[p.0 as int].parent, rest, (fuel - 1) as nat)),
    }
}

/// `cur` or one of the previous element siblings reached from it matches `rest`. The walk takes
/// at most `fuel` steps; started with the arena's size, it only runs out on a sibling chain that
/// cycles.
pub open spec fn sibling_matches(
    nodes: Seq<Node>,
    cur: Option<NodeId>,
    rest: Seq<(Combinator, CompoundV)>,
    fuel: nat,
) -> bool
    decreases rest.len(), 1int, fuel,
{
    match cur {
        None => false,
        Some(s) => chain_matches(nodes, s.0 as int, rest) || (fuel > 0 && 0 <= s.0 < nodes.len()
            && sibling_matches(nodes, prev_elem(nodes, s.0 as int), rest, (fuel - 1) as nat)),
    }
}

fn matches_prefix(doc: &Document, node: NodeId, chain: &Vec<(Combinator, Compound)>, n: usize) -> (r: bool)
    requires
        doc.wf(),
        node.0 < doc@.len(),
        n <= chain@.len(),
    ensures
        r == chain_matches(doc@, node.0 as int, chain_view(chain@).take(n as int)),
    decreases n,
{
    let ghost full = chain_view(chain@).take(n as int);
    if n == 0 {
        return false;
    }
    assert(full[n - 1] == (chain@[n - 1].0, chain@[n - 1].1@));
    if !chain[n - 1].1.matches(doc, node) {
        return false;
    }
    if n == 1 {
        return true;
    }
    let ghost rest = full.take(n - 1);
    assert(rest =~= chain_view(chain@).take(n - 1));
    match chain[n - 1].0 {
        Combinator::Child => match doc.get(node).parent {
            Some(p) => matches_prefix(doc, p, chain, n - 1),
            None => false,
        },
        Combinator::NextSibling => match prev_element_sibling(doc, node) {
            Some(prev) => matches_prefix(doc, prev, chain, n - 1),
            None => false,
        },
        Combinator::Descendant => {
            let mut cur = doc.get(node).parent;
            let mut fuel = doc.len();
            assert(chain_matches(doc@, node.0 as int, full) == ancestor_matches(
                doc@,
                doc@[node.0 as int].parent,
                rest,
                doc@.len(),
            ));
            while cur.is_some()
                invariant
                    doc.wf(),
                    2 <= n <= chain@.len(),
                    node.0 < doc@.len(),
                    full == chain_view(chain@).take(n as int),
                    chain_matches(doc@, node.0 as int, full) == ancestor_matches(
                        doc@,
                        doc@[node.0 as int].parent,
                        rest,
                        doc@.len(),
                    ),
                    n - 1 < chain@.len(),
                    rest == chain_view(chain@).take(n - 1),
                    cur matches Some(p) ==> p.0 < doc@.len(),
                    ancestor_matches(doc@, doc@[node.0 as int].parent, rest, doc@.len())
                        == ancestor_matches(doc@, cur, rest, fuel as nat),
                decreases fuel, match cur {
                    Some(_) => 1int,
                    None => 0int,
                },
            {
                let p = cur.unwrap();
                if matches_prefix(doc, p, chain, n - 1) {
                    return true;
                }
                if fuel == 0 {
                    return false;
                }
                cur = doc.get(p).parent;
                fuel -= 1;
            }
            false
        },
        Combinator::SubsequentSibling => {
            let mut cur = prev_element_sibling(doc, node);
            let mut fuel = doc.len();
            assert(chain_matches(doc@, node.0 as int, full) == sibling_matches(
                doc@,
                prev_elem(doc@, node.0 as int),
                rest,
                doc@.len(),
            ));
            while cur.is_some()
                invariant
                    doc.wf(),
                    2 <= n <= chain@.len(),
                    node.0 < doc@.len(),
                    full == chain_view(chain@).take(n as int),
                    chain_matches(doc@, node.0 as int, full) == sibling_matches(
                        doc@,
                        prev_elem(doc@, node.0 as int),
                        rest,
                        doc@.len(),
                    ),
                    n - 1 < chain@.len(),
                    rest == chain_view(chain@).take(n - 1),
                    cur matches Some(s) ==> s.0 < doc@.len(),
                    sibling_matches(doc@, prev_elem(doc@, node.0 as int), rest, doc@.len())
                        == sibling_matches(doc@, cur, rest, fuel as nat),
                decreases fuel, match cur {
                    Some(_) => 1int,
                    None => 0int,
                },
            {
                let sib = cur.unwrap();
                if matches_prefix(doc, sib, chain, n - 1) {
                    return true;
                }
                if fuel == 0 {
                    return false;
                }
                cur = prev_element_sibling(doc, sib);
                fuel -= 1;
            }
            false
        },
    }
}

/// Does `node` match the complex selector `chain` (matched right-to-left, with backtracking for
/// the descendant and subsequent-sibling combinators)?
pub fn matches_complex(doc: &Document, node: NodeId, chain: &Vec<(Combinator, Compound)>) -> (r: bool)
    requires
        doc.wf(),
        node.0 < doc@.len(),
    ensures
        r == chain_matches(doc@, node.0 as int, chain_view(chain@)),
{
    assert(chain_view(chain@).take(chain@.len() as int) =~= chain_view(chain@));
    matches_prefix(doc, node, chain, chain.len())
}

/// The end of the escape sequence that starts with the backslash at `i`: the backslash, then
/// 1-6 hex digits and an optional single ASCII whitespace, or one other character.
pub open spec fn escape_end(s: Seq<char>, i: int) -> int {
    if i + 1 < s.len() && is_hex_digit(s[i + 1]) {
        let a = i + 1 + hex_len(s.skip(i + 1), 6);
        if a < s.len() && is_ascii_ws(s[a]) {
            a + 1
        } else {
            a
        }
    } else if i + 1 < s.len() {
        i + 2
    } else {
        i + 1
    }
}

pub proof fn lemma_escape_end(s: Seq<char>, i: int)
    requires
        0 <= i < s.len(),
    ensures
        i < escape_end(s, i) <= s.len(),
{
    if i + 1 < s.len() && is_hex_digit(s[i + 1]) {
        lemma_hex_len_bound(s.skip(i + 1), 6);
    }
}

/// Splitting a complex selector into `(combinator to the previous segment, segment text)`
/// pairs, scanning from `i` with the segments found so far, the segment being read, the pending
/// combinator and the `[...]` nesting depth. Escapes are kept verbatim; only unescaped
/// combinators and whitespace outside brackets separate segments.
pub open spec fn complex_segments(
    s: Seq<char>,
    i: int,
    segs: Seq<(Combinator, Seq<char>)>,
    cur: Seq<char>,
    pending: Combinator,
    depth: nat,
) -> Seq<(Combinator, Seq<char>)>
    decreases s.len() - i,
{
    if i < 0 || i >= s.len() {
        if trim(cur).len() > 0 {
            segs.push((pending, cur))
        } else {
            segs
        }
    } else {
        let ch = s[i];
        if ch == '\\' {
            proof {
                lemma_escape_end(s, i);
            }
            let e = escape_end(s, i);
            complex_segments(s, e, segs, cur + s.subrange(i, e), pending, depth)
        } else {
            let depth2: nat = if ch == '[' {
                depth + 1
            } else if ch == ']' && depth > 0 {
                (depth - 1) as nat
            } else {
                depth
            };
            if depth2 == 0 && (ch == '>' || ch == '+' || ch == '~' || is_ws(ch)) {
                let (segs2, pending2) = if trim(cur).len() > 0 {
                    (segs.push((pending, cur)), Combinator::Descendant)
                } else {
                    (segs, pending)
                };
                let pending3 = if ch == '>' {
                    Combinator::Child
                } else if ch == '+' {
                    Combinator::NextSibling
                } else if ch == '~' {
                    Combinator::SubsequentSibling
                } else {
                    pending2
                };
                complex_segments(s, i + 1, segs2, seq![], pending3, depth2)
            } else {
                complex_segments(s, i + 1, segs, cur.push(ch), pending, depth2)
            }
        }
    }
}

/// The segments that parse as compound selectors, with their combinators.
pub open spec fn compounds_of(segs: Seq<(Combinator, Seq<char>)>) -> Seq<(Combinator, CompoundV)>
    decreases segs.len(),
{
    if segs.len() == 0 {
        seq![]
    } else {
        let prev = compounds_of(segs.drop_last());
        match compound_of(segs.last().1) {
            Some(c) => prev.push((segs.last().0, c)),
            None => prev,
        }
    }
}

/// The complex selector `s` denotes: `None` when no segment parses.
pub open spec fn complex_of(s: Seq<char>) -> Option<Seq<(Combinator, CompoundV)>> {
    let parts = compounds_of(complex_segments(s, 0, seq![], seq![], Combinator::Descendant, 0));
    if parts.len() == 0 {
        None
    } else {
        Some(parts)
    }
}

pub open spec fn segs_view(v: Seq<(Combinator, String)>) -> Seq<(Combinator, Seq<char>)> {
    v.map_values(|p: (Combinator, String)| (p.0, p.1@))
}

fn trimmed_nonempty(cur: &String) -> (r: bool)
    ensures
        r == (trim(cur@).len() > 0),
{
    trim_vec(&to_chars(cur.as_str())).len() > 0
}

/// Parse a complex selector into `(combinator-to-previous, compound)` pairs in source order. The
/// first pair's combinator is `Descendant` (unused: it has no left neighbor).
pub fn parse_complex(s: &str) -> (r: Option<Vec<(Combinator, Compound)>>)
    ensures
        match r {
            Some(v) => complex_of(s@) == Some(chain_view(v@)),
            None => complex_of(s@) is None,
        },
{
    let bytes = to_chars(s);
    let n = bytes.len();
    let mut segments: Vec<(Combinator, String)> = Vec::new();
    let mut cur = String::new();
    let mut pending = Combinator::Descendant;
    let mut depth: usize = 0;
    let mut i: usize = 0;
    let ghost whole = complex_segments(s@, 0, seq![], seq![], Combinator::Descendant, 0);
    assert(segs_view(segments@) =~= Seq::<(Combinator, Seq<char>)>::empty());
    while i < n
        invariant
            bytes@ == s@,
            n == bytes@.len(),
            0 <= i <= n,
            depth <= i,
            whole == complex_segments(s@, i as int, segs_view(segments@), cur@, pending, depth as nat),
        decreases n - i,
    {
        let ch = bytes[i];
        if ch == '\\' {
            // Keep the whole escape verbatim for parse_compound to unescape; the trailing
            // whitespace of a hex escape is not a descendant combinator.
            let ghost start = i as int;
            let ghost cur0 = cur@;
            proof {
                lemma_escape_end(s@, start);
            }
            push_char(&mut cur, ch);
            i += 1;
            if i < n && is_hex(bytes[i]) {
                let ghost hs = i as int;
                proof {
                    lemma_hex_len_bound(s@.skip(hs), 6);
                }
                let mut k: usize = 0;
                while i < n && k < 6 && is_hex(bytes[i])
                    invariant
                        bytes@ == s@,
                        n == bytes@.len(),
                        0 <= start,
                        start + 1 == hs,
                        hs <= i <= n,
                        k == i - hs,
                        k <= 6,
                        hex_len(s@.skip(hs), 6) == k + hex_len(s@.skip(i as int), (6 - k) as nat),
                        cur@ == cur0 + s@.subrange(start, i as int),
                    decreases n - i,
                {
                    assert(s@.skip(i as int)[0] == s@[i as int]);
                    assert(s@.skip(i as int).drop_first() =~= s@.skip(i + 1));
                    assert(s@.subrange(start, i + 1) =~= s@.subrange(start, i as int).push(s@[i as int]));
                    push_char(&mut cur, bytes[i]);
                    i += 1;
                    k += 1;
                    assert(cur@ =~= cur0 + s@.subrange(start, i as int));
                }
                assert(hex_len(s@.skip(i as int), (6 - k) as nat) == 0);
                if i < n && is_ascii_whitespace(bytes[i]) {
                    push_char(&mut cur, bytes[i]);
                    i += 1;
                    assert(cur@ =~= cur0 + s@.subrange(start, i as int));
                }
            } else if i < n {
                push_char(&mut cur, bytes[i]);
                i += 1;
                assert(cur@ =~= cur0 + s@.subrange(start, i as int));
            } else {
                assert(cur@ =~= cur0 + s@.subrange(start, i as int));
            }
            assert(i == escape_end(s@, start));
            continue;
        }
        if ch == '[' {
            depth += 1;
        } else if ch == ']' && depth > 0 {
            depth -= 1;
        }
        if depth == 0 && (ch == '>' || ch == '+' || ch == '~' || is_whitespace(ch)) {
            if trimmed_nonempty(&cur) {
                let ghost before = segs_view(segments@);
                let done = cur;
                cur = String::new();
                segments.push((pending, done));
                assert(segs_view(segments@) =~= before.push((pending, done@)));
                pending = Combinator::Descendant;
            } else {
                cur = String::new();
            }
            if ch == '>' {
                pending = Combinator::Child;
            } else if ch == '+' {
                pending = Combinator::NextSibling;
            } else if ch == '~' {
                pending = Combinator::SubsequentSibling;
            }
            i += 1;
            continue;
        }
        push_char(&mut cur, ch);
        i += 1;
    }
    if trimmed_nonempty(&cur) {
        let ghost before = segs_view(segments@);
        let done = cur;
        segments.push((pending, done));
        assert(segs_view(segments@) =~= before.push((pending, done@)));
    }
    assert(whole == segs_view(segments@));
    let mut parts: Vec<(Combinator, Compound)> = Vec::new();
    let mut j: usize = 0;
    while j < segments.len()
        invariant
            0 <= j <= segments@.len(),
            chain_view(parts@) == compounds_of(segs_view(segments@).take(j as int)),
        decreases segments@.len() - j,
    {
        let ghost sv = segs_view(segments@);
        assert(sv.take(j + 1).drop_last() =~= sv.take(j as int));
        assert(sv.take(j + 1).last() == (segments@[j as int].0, segments@[j as int].1@));
        let comb = segments[j].0;
        match parse_compound(segments[j].1.as_str()) {
            Some(cp) => {
                let ghost before = chain_view(parts@);
                parts.push((comb, cp));
                assert(chain_view(parts@) =~= before.push((comb, cp@)));
            },
            None => {},
        }
        j += 1;
    }
    assert(segs_view(segments@).take(segments@.len() as int) =~= segs_view(segments@));
    if parts.len() == 0 {
        None
    } else {
        Some(parts)
    }
}

// ---------------------------------------------------------------------------------------------
// Queries
// ---------------------------------------------------------------------------------------------

/// The selector groups of a comma-separated selector list (commas split it plainly), keeping
/// those that parse.
pub open spec fn groups_of(parts: Seq<Seq<char>>) -> Seq<Seq<(Combinator, CompoundV)>>
    decreases parts.len(),
{
    if parts.len() == 0 {
        seq![]
    } else {
        let prev = groups_of(parts.drop_last());
        match complex_of(parts.last()) {
            Some(g) => prev.push(g),
            None => prev,
        }
    }
}

pub open spec fn selector_groups(sel: Seq<char>) -> Seq<Seq<(Combinator, CompoundV)>> {
    groups_of(split_on(sel, ','))
}

pub open spec fn groups_view(v: Seq<Vec<(Combinator, Compound)>>) -> Seq<Seq<(Combinator, CompoundV)>> {
    v.map_values(|g: Vec<(Combinator, Compound)>| chain_view(g@))
}

/// An element that matches one of the groups.
pub open spec fn query_pred(nodes: Seq<Node>, groups: Seq<Seq<(Combinator, CompoundV)>>) -> spec_fn(NodeId) -> bool {
    |n: NodeId|
        0 <= n.0 < nodes.len() && nodes[n.0 as int].data is Element && exists|g: int|
            0 <= g < groups.len() && chain_matches(nodes, n.0 as int, #[trigger] groups[g])
}

fn parse_groups(sel: &str) -> (r: Vec<Vec<(Combinator, Compound)>>)
    ensures
        groups_view(r@) == selector_groups(sel@),
{
    let pieces = split_on_char(&to_chars(sel), ',');
    let ghost pv = views(pieces@);
    let mut groups: Vec<Vec<(Combinator, Compound)>> = Vec::new();
    let mut j: usize = 0;
    while j < pieces.len()
        invariant
            pv == views(pieces@),
            pv == split_on(sel@, ','),
            0 <= j <= pieces@.len(),
            groups_view(groups@) == groups_of(pv.take(j as int)),
        decreases pieces@.len() - j,
    {
        assert(pv.take(j + 1).drop_last() =~= pv.take(j as int));
        assert(pv.take(j + 1).last() == pieces@[j as int]@);
        let piece = string_from(pieces[j].as_slice());
        match parse_complex(piece.as_str()) {
            Some(g) => {
                let ghost before = groups_view(groups@);
                groups.push(g);
                assert(groups_view(groups@) =~= before.push(chain_view(g@)));
            },
            None => {},
        }
        j += 1;
    }
    assert(pv.take(pieces@.len() as int) =~= pv);
    groups
}

fn matches_any(doc: &Document, node: NodeId, groups: &Vec<Vec<(Combinator, Compound)>>) -> (r: bool)
    requires
        doc.wf(),
        node.0 < doc@.len(),
    ensures
        r == query_pred(doc@, groups_view(groups@))(node),
{
    let is_elem = match &doc.get(node).data {
        NodeData::Element(_) => true,
        _ => false,
    };
    if !is_elem {
        return false;
    }
    let ghost gv = groups_view(groups@);
    let mut g: usize = 0;
    while g < groups.len()
        invariant
            doc.wf(),
            node.0 < doc@.len(),
            gv == groups_view(groups@),
            0 <= g <= groups@.len(),
            forall|k: int| 0 <= k < g ==> !chain_matches(doc@, node.0 as int, #[trigger] gv[k]),
        decreases groups@.len() - g,
    {
        assert(gv[g as int] == chain_view(groups@[g as int]@));
        if matches_complex(doc, node, &groups[g]) {
            return true;
        }
        g += 1;
    }
    false
}

/// Append the matching elements of the subtree of `node` to `out`, in document order.
fn query_walk(doc: &Document, node: NodeId, groups: &Vec<Vec<(Combinator, Compound)>>, out: &mut Vec<NodeId>)
    requires
        doc.wf(),
        node.0 < doc@.len(),
    ensures
        final(out)@ == old(out)@ + subtree(doc@, node.0 as int).filter(query_pred(doc@, groups_view(groups@))),
    decreases doc@.len() - rank(doc@, node.0 as int), 1int,
{
    let ghost p = query_pred(doc@, groups_view(groups@));
    let ghost rest = children_subtrees(doc@, node.0 as int, doc@[node.0 as int].children@.len() as int);
    proof {
        Seq::filter_distributes_over_add(seq![node], rest, p);
        reveal_with_fuel(Seq::filter, 2);
        assert(seq![node].drop_last() =~= Seq::<NodeId>::empty());
        assert(NodeId(node.0 as int as usize) == node);
    }
    if matches_any(doc, node, groups) {
        out.push(node);
    }
    assert(out@ == old(out)@ + seq![node].filter(p));
    query_walk_kids(doc, node, groups, out);
    assert(out@ =~= old(out)@ + (seq![node].filter(p) + rest.filter(p)));
}

/// Append the matching elements of the subtrees of `node`'s children to `out`.
fn query_walk_kids(doc: &Document, node: NodeId, groups: &Vec<Vec<(Combinator, Compound)>>, out: &mut Vec<NodeId>)
    requires
        doc.wf(),
        node.0 < doc@.len(),
    ensures
        final(out)@ == old(out)@ + children_subtrees(
            doc@,
            node.0 as int,
            doc@[node.0 as int].children@.len() as int,
        ).filter(query_pred(doc@, groups_view(groups@))),
    decreases doc@.len() - rank(doc@, node.0 as int), 0int,
{
    let ghost p = query_pred(doc@, groups_view(groups@));
    let children = &doc.get(node).children;
    let n = children.len();
    let mut k: usize = 0;
    proof {
        reveal_with_fuel(Seq::filter, 1);
    }
    assert(old(out)@ =~= old(out)@ + children_subtrees(doc@, node.0 as int, 0).filter(p));
    while k < n
        invariant
            doc.wf(),
            node.0 < doc@.len(),
            *children == doc@[node.0 as int].children,
            n == children@.len(),
            p == query_pred(doc@, groups_view(groups@)),
            0 <= k <= n,
            out@ == old(out)@ + children_subtrees(doc@, node.0 as int, k as int).filter(p),
        decreases n - k,
    {
        let c = children[k];
        assert(deeper(doc@, node.0 as int, c.0 as int));
        proof {
            Seq::filter_distributes_over_add(
                children_subtrees(doc@, node.0 as int, k as int),
                subtree(doc@, c.0 as int),
                p,
            );
        }
        query_walk(doc, c, groups, out);
        k += 1;
    }
}

/// Collect every element matching any of the comma-separated selector groups, in document
/// order (nothing when no group parses).
pub fn query_selector_all(doc: &Document, sel: &str) -> (r: Vec<NodeId>)
    requires
        doc.wf(),
    ensures
        r@ == if selector_groups(sel@).len() == 0 {
            Seq::<NodeId>::empty()
        } else {
            subtree(doc@, 0).filter(query_pred(doc@, selector_groups(sel@)))
        },
{
    let groups = parse_groups(sel);
    if groups.len() == 0 {
        return Vec::new();
    }
    let mut out: Vec<NodeId> = Vec::new();
    query_walk(doc, doc.root(), &groups, &mut out);
    assert(out@ =~= Seq::<NodeId>::empty() + subtree(doc@, 0).filter(query_pred(doc@, selector_groups(sel@))));
    out
}

/// Like [`query_selector_all`] but scoped to the subtree under `root` (excluding `root` itself).
pub fn query_within(doc: &Document, root: NodeId, sel: &str) -> (r: Vec<NodeId>)
    requires
        doc.wf(),
        root.0 < doc@.len(),
    ensures
        r@ == if selector_groups(sel@).len() == 0 {
            Seq::<NodeId>::empty()
        } else {
            children_subtrees(doc@, root.0 as int, doc@[root.0 as int].children@.len() as int).filter(
                query_pred(doc@, selector_groups(sel@)),
            )
        },
{
    let groups = parse_groups(sel);
    let mut out: Vec<NodeId> = Vec::new();
    if groups.len() == 0 {
        return out;
    }
    query_walk_kids(doc, root, &groups, &mut out);
    assert(out@ =~= Seq::<NodeId>::empty() + children_subtrees(
        doc@,
        root.0 as int,
        doc@[root.0 as int].children@.len() as int,
    ).filter(query_pred(doc@, selector_groups(sel@))));
    out
}


/// A query scoped to the document root finds exactly what the whole-document query finds: the
/// root itself is the document node, which no selector matches.
pub proof fn law_query_within_document_root(nodes: Seq<Node>, sel: Seq<char>)
    requires
        doc_wf(nodes),
    ensures
        children_subtrees(nodes, 0, nodes[0].children@.len() as int).filter(
            query_pred(nodes, selector_groups(sel)),
        ) == subtree(nodes, 0).filter(query_pred(nodes, selector_groups(sel))),
{
    let p = query_pred(nodes, selector_groups(sel));
    let rest = children_subtrees(nodes, 0, nodes[0].children@.len() as int);
    assert(subtree(nodes, 0) == seq![NodeId(0usize)] + rest);
    Seq::filter_distributes_over_add(seq![NodeId(0usize)], rest, p);
    reveal_with_fuel(Seq::filter, 2);
    assert(seq![NodeId(0usize)].drop_last() =~= Seq::<NodeId>::empty());
    assert(!p(NodeId(0usize)));
    assert(seq![NodeId(0usize)].filter(p) =~= Seq::<NodeId>::empty());
    assert(Seq::<NodeId>::empty() + rest.filter(p) =~= rest.filter(p));
}

} // verus!
