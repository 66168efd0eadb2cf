//! Resolution of `var(--name, fallback)` references against an element's custom properties.
//!
//! The custom-property environment is a table of `(name, value)` pairs with distinct names (as a
//! map holds them); a lookup takes the first pair with the name.

use vstd::prelude::*;
use crate::selector::contains_seq;
use crate::dom::distinct_names;
use crate::text::{trim, to_chars, push_char, push_str, trim_vec, slice_vec, string_from, string_of, seq_eq};

verus! {

broadcast use vstd::string::group_string_axioms;

/// The recursion cap that bounds cyclic `var()` references.
pub const VAR_MAX_DEPTH: usize = 32;

/// The value of the first variable named `name`.
pub open spec fn lookup(vars: Seq<(String, String)>, name: Seq<char>) -> Option<Seq<char>>
    decreases vars.len(),
{
    if vars.len() == 0 {
        None
    } else if vars[0].0@ == name {
        Some(vars[0].1@)
    } else {
        lookup(vars.drop_first(), name)
    }
}

/// Splitting at the first comma outside parentheses (a `)` may take the depth below zero): the
/// part before it and, when there is one, the part after it.
pub open spec fn first_comma_from(s: Seq<char>, k: int, depth: int) -> Option<int>
    decreases s.len() - k,
{
    if k < 0 || k >= s.len() {
        None
    } else if s[k] == ',' && depth == 0 {
        Some(k)
    } else {
        first_comma_from(
            s,
            k + 1,
            if s[k] == '(' {
                depth + 1
            } else if s[k] == ')' {
                depth - 1
            } else {
                depth
            },
        )
    }
}

pub open spec fn split_first_comma_spec(s: Seq<char>) -> (Seq<char>, Option<Seq<char>>) {
    match first_comma_from(s, 0, 0) {
        Some(k) => (s.take(k), Some(s.skip(k + 1))),
        None => (s, None),
    }
}

proof fn lemma_first_comma(s: Seq<char>, k: int, depth: int)
    requires
        0 <= k,
    ensures
        first_comma_from(s, k, depth) matches Some(j) ==> k <= j < s.len() && s[j] == ',',
    decreases s.len() - k,
{
    if k < s.len() && !(s[k] == ',' && depth == 0) {
        lemma_first_comma(
            s,
            k + 1,
            if s[k] == '(' {
                depth + 1
            } else if s[k] == ')' {
                depth - 1
            } else {
                depth
            },
        );
    }
}

/// Split `s` at the first top-level comma (not inside nested parens). Returns `(before, after)`.
pub fn split_first_comma(s: &str) -> (r: (&str, Option<&str>))
    ensures
        (r.0@, match r.1 {
            Some(a) => Some(a@),
            None => None,
        }) == split_first_comma_spec(s@),
{
    let v = to_chars(s);
    let n = v.len();
    let mut depth: i128 = 0;
    let mut k: usize = 0;
    while k < n
        invariant
            n == v@.len(),
            v@ == s@,
            0 <= k <= n,
            -(k as int) <= depth <= k,
            first_comma_from(v@, 0, 0) == first_comma_from(v@, k as int, depth as int),
        decreases n - k,
    {
        let c = v[k];
        if c == ',' && depth == 0 {
            proof {
                lemma_first_comma(v@, 0, 0);
            }
            return (s.substring_char(0, k), Some(s.substring_char(k + 1, n)));
        }
        if c == '(' {
            depth += 1;
        } else if c == ')' {
            depth -= 1;
        }
        k += 1;
    }
    (s, None)
}

/// The index of the `)` closing a `var(` whose arguments start at `j` with `depth` open
/// parentheses, or the end of `s` when it is unclosed.
pub open spec fn close_paren(s: Seq<char>, j: int, depth: int) -> int
    decreases s.len() - j,
{
    if j < 0 || j >= s.len() {
        j
    } else {
        let d = if s[j] == '(' {
            depth + 1
        } else if s[j] == ')' {
            depth - 1
        } else {
            depth
        };
        if d == 0 {
            j
        } else {
            close_paren(s, j + 1, d)
        }
    }
}

pub proof fn lemma_close_paren(s: Seq<char>, j: int, depth: int)
    requires
        0 <= j <= s.len(),
    ensures
        j <= close_paren(s, j, depth) <= s.len(),
    decreases s.len() - j,
{
    if j < s.len() {
        let d = if s[j] == '(' {
            depth + 1
        } else if s[j] == ')' {
            depth - 1
        } else {
            depth
        };
        if d != 0 {
            lemma_close_paren(s, j + 1, d);
        }
    }
}

/// The text `var(`.
pub open spec fn var_open() -> Seq<char> {
    seq!['v', 'a', 'r', '(']
}

pub open spec fn var_at(s: Seq<char>, i: int) -> bool {
    0 <= i && i + 4 <= s.len() && s[i] == 'v' && s[i + 1] == 'a' && s[i + 2] == 'r' && s[i + 3]
        == '('
}

pub open spec fn rank(depth: nat) -> nat {
    if depth < VAR_MAX_DEPTH {
        (VAR_MAX_DEPTH - depth) as nat
    } else {
        0
    }
}

/// `value` with its `var()` references resolved, `depth` levels into nested references.
pub open spec fn resolve_spec(value: Seq<char>, vars: Seq<(String, String)>, depth: nat) -> Seq<char>
    decreases rank(depth), 2int, 0int,
{
    if depth >= VAR_MAX_DEPTH || !contains_seq(value, var_open()) {
        value
    } else {
        expand_from(value, 0, vars, depth)
    }
}

/// Expanding the references of `s` from position `i`.
pub open spec fn expand_from(s: Seq<char>, i: int, vars: Seq<(String, String)>, depth: nat) -> Seq<char>
    decreases rank(depth), 1int, s.len() + 1 - i,
{
    if i < 0 || i >= s.len() {
        seq![]
    } else if var_at(s, i) {
        proof {
            lemma_close_paren(s, i + 4, 1);
        }
        let j = close_paren(s, i + 4, 1);
        one_var(s.subrange(i + 4, j), vars, depth) + expand_from(s, j + 1, vars, depth)
    } else {
        seq![s[i]] + expand_from(s, i + 1, vars, depth)
    }
}

/// The resolution of the arguments of one `var(...)`: the named variable's value, else the
/// fallback after the first top-level comma, both resolved one level deeper (at or past the
/// depth cap that leaves them as they are), else nothing.
pub open spec fn one_var(args: Seq<char>, vars: Seq<(String, String)>, depth: nat) -> Seq<char>
    decreases rank(depth), 0int, 0int,
{
    let (name, fallback) = split_first_comma_spec(args);
    match lookup(vars, trim(name)) {
        Some(v) => if depth >= VAR_MAX_DEPTH {
            v
        } else {
            resolve_spec(v, vars, depth + 1)
        },
        None => match fallback {
            Some(fb) => if depth >= VAR_MAX_DEPTH {
                trim(fb)
            } else {
                resolve_spec(trim(fb), vars, depth + 1)
            },
            None => seq![],
        },
    }
}

fn lookup_var<'a>(vars: &'a Vec<(String, String)>, name: &str) -> (r: Option<&'a str>)
    ensures
        match r {
            Some(v) => lookup(vars@, name@) == Some(v@),
            None => lookup(vars@, name@) is None,
        },
{
    let nv = to_chars(name);
    let mut i: usize = 0;
    assert(vars@.skip(0) =~= vars@);
    while i < vars.len()
        invariant
            nv@ == name@,
            0 <= i <= vars@.len(),
            lookup(vars@, name@) == lookup(vars@.skip(i as int), name@),
        decreases vars@.len() - i,
    {
        assert(vars@.skip(i as int).drop_first() =~= vars@.skip(i + 1));
        if seq_eq(&to_chars(vars[i].0.as_str()), &nv) {
            return Some(vars[i].1.as_str());
        }
        i += 1;
    }
    None
}

fn has_var_call(v: &Vec<char>) -> (r: bool)
    ensures
        r == contains_seq(v@, var_open()),
{
    let n = v.len();
    if n < 4 {
        return false;
    }
    let mut i: usize = 0;
    while i <= n - 4
        invariant
            n == v@.len(),
            4 <= n,
            0 <= i <= n - 3,
            forall|j: int| 0 <= j < i ==> #[trigger] v@.subrange(j, j + 4) != var_open(),
        decreases n - 3 - i,
    {
        if v[i] == 'v' && v[i + 1] == 'a' && v[i + 2] == 'r' && v[i + 3] == '(' {
            assert(v@.subrange(i as int, i + 4) =~= var_open());
            return true;
        }
        assert(v@.subrange(i as int, i + 4) != var_open()) by {
            if v@.subrange(i as int, i + 4) == var_open() {
                assert(v@.subrange(i as int, i + 4)[0] == v@[i as int]);
                assert(v@.subrange(i as int, i + 4)[1] == v@[i + 1]);
                assert(v@.subrange(i as int, i + 4)[2] == v@[i + 2]);
                assert(v@.subrange(i as int, i + 4)[3] == v@[i + 3]);
            }
        }
        i += 1;
    }
    false
}

/// Resolve `var(--name, fallback)` references in `value` against `vars`, recursively (values can
/// reference other variables). Cyclic references are cut off by a recursion-depth cap.
pub fn resolve_vars(value: &str, vars: &Vec<(String, String)>) -> (r: String)
    requires
        distinct_names(vars@),
    ensures
        r@ == resolve_spec(value@, vars@, 0),
{
    resolve_vars_depth(value, vars, 0)
}

/// [`resolve_vars`] at a given nesting depth.
pub fn resolve_vars_depth(value: &str, vars: &Vec<(String, String)>, depth: usize) -> (r: String)
    requires
        distinct_names(vars@),
    ensures
        r@ == resolve_spec(value@, vars@, depth as nat),
    decreases rank(depth as nat), 2int, 0int,
{
    let chars = to_chars(value);
    if depth >= VAR_MAX_DEPTH || !has_var_call(&chars) {
        let mut out = String::new();
        push_str(&mut out, value);
        return out;
    }
    let n = chars.len();
    let mut out = String::new();
    let mut i: usize = 0;
    while i < n
        invariant
            chars@ == value@,
            n == chars@.len(),
            depth < VAR_MAX_DEPTH,
            distinct_names(vars@),
            0 <= i <= n,
            expand_from(value@, 0, vars@, depth as nat) == out@ + expand_from(
                value@,
                i as int,
                vars@,
                depth as nat,
            ),
        decreases n - i,
    {
        let ghost before = out@;
        // Detect `var(` at a token boundary.
        if n - i >= 4 && chars[i] == 'v' && chars[i + 1] == 'a' && chars[i + 2] == 'r' && chars[i
            + 3] == '(' {
            // Find the matching close paren for this `var(`.
            let args_start = i + 4;
            let mut j = args_start;
            let mut pdepth: usize = 1;
            proof {
                lemma_close_paren(value@, args_start as int, 1);
            }
            while j < n
                invariant_except_break
                    1 <= pdepth <= j + 1 - args_start,
                invariant
                    n == chars@.len(),
                    chars@ == value@,
                    4 <= args_start <= j <= n,
                    pdepth <= j + 1 - args_start,
                    pdepth > 0 ==> close_paren(value@, args_start as int, 1) == close_paren(
                        value@,
                        j as int,
                        pdepth as int,
                    ),
                ensures
                    j <= n,
                    close_paren(value@, args_start as int, 1) == j,
                decreases n - j,
            {
                if chars[j] == '(' {
                    pdepth += 1;
                } else if chars[j] == ')' {
                    pdepth -= 1;
                }
                if pdepth == 0 {
                    break;
                }
                j += 1;
            }
            let args = string_from(slice_vec(&chars, args_start, j).as_slice());
            let replacement = resolve_one_var(args.as_str(), vars, depth);
            push_str(&mut out, replacement.as_str());
            assert(expand_from(value@, j + 1, vars@, depth as nat) == expand_from(
                value@,
                if j < n {
                    j + 1
                } else {
                    n as int
                },
                vars@,
                depth as nat,
            ));
            if j < n {
                i = j + 1;
            } else {
                i = n;
            }
            assert(out@ + expand_from(value@, i as int, vars@, depth as nat) =~= before + (
            replacement@ + expand_from(value@, i as int, vars@, depth as nat)));
            continue;
        }
        push_char(&mut out, chars[i]);
        i += 1;
        assert(out@ + expand_from(value@, i as int, vars@, depth as nat) =~= before + (seq![
            chars@[i - 1],
        ] + expand_from(value@, i as int, vars@, depth as nat)));
    }
    assert(out@ + expand_from(value@, i as int, vars@, depth as nat) =~= out@);
    out
}

/// Resolve the arguments of a single `var(...)`: `--name` or `--name, fallback`. Returns the
/// resolved (and recursively expanded) value, or the (expanded) fallback, or empty.
pub fn resolve_one_var(args: &str, vars: &Vec<(String, String)>, depth: usize) -> (r: String)
    requires
        distinct_names(vars@),
    ensures
        r@ == one_var(args@, vars@, depth as nat),
    decreases rank(depth as nat), 0int, 0int,
{
    // Split into name and optional fallback at the first top-level comma.
    let (name, fallback) = split_first_comma(args);
    let name_t = string_from(trim_vec(&to_chars(name)).as_slice());
    if let Some(v) = lookup_var(vars, name_t.as_str()) {
        // The looked-up value may itself contain var() references; past the depth cap it is
        // taken as it is.
        if depth >= VAR_MAX_DEPTH {
            return string_of(v);
        }
        return resolve_vars_depth(v, vars, depth + 1);
    }
    match fallback {
        Some(fb) => {
            let fb_t = string_from(trim_vec(&to_chars(fb)).as_slice());
            if depth >= VAR_MAX_DEPTH {
                return fb_t;
            }
            resolve_vars_depth(fb_t.as_str(), vars, depth + 1)
        },
        None => String::new(),
    }
}


/// Resolution leaves a value alone when it holds no `var(` reference, and at or past the depth
/// cap (which is what stops a cycle of variables from expanding forever).
pub proof fn law_resolution_leaves_plain_values(value: Seq<char>, vars: Seq<(String, String)>, depth: nat)
    requires
        depth >= VAR_MAX_DEPTH || !contains_seq(value, var_open()),
    ensures
        resolve_spec(value, vars, depth) == value,
{
}


/// Splitting at the first top-level comma loses nothing: the part before, a comma and the part
/// after give back the input; with no such comma the whole input is the first part.
pub proof fn law_first_comma_split_rejoins(s: Seq<char>)
    ensures
        match split_first_comma_spec(s) {
            (before, Some(after)) => before + seq![','] + after == s,
            (before, None) => before == s,
        },
{
    lemma_first_comma(s, 0, 0);
    if let Some(k) = first_comma_from(s, 0, 0) {
        assert(s.take(k) + seq![','] + s.skip(k + 1) =~= s);
    }
}


/// In a variable table with distinct names, looking a name up finds the one entry with that
/// name: the table behaves as a map from names to values.
pub proof fn law_lookup_finds_the_binding(vars: Seq<(String, String)>)
    requires
        distinct_names(vars),
    ensures
        forall|i: int| 0 <= i < vars.len() ==> lookup(vars, #[trigger] vars[i].0@) == Some(vars[i].1@),
    decreases vars.len(),
{
    if vars.len() > 0 {
        let rest = vars.drop_first();
        assert forall|i: int, j: int| 0 <= i < j < rest.len() implies (#[trigger] rest[i]).0@ != (
        #[trigger] rest[j]).0@ by {
            assert(rest[i] == vars[i + 1] && rest[j] == vars[j + 1]);
        }
        law_lookup_finds_the_binding(rest);
        assert forall|i: int| 0 <= i < vars.len() implies lookup(vars, #[trigger] vars[i].0@) == Some(
            vars[i].1@,
        ) by {
            if i > 0 {
                assert(vars[i] == rest[i - 1]);
                assert(vars[0].0@ != vars[i].0@);
            }
        }
    }
}

} // verus!
