//! Text selection over the laid-out text runs of a page.
//!
//! A selection has an anchor and a focus, each already resolved (by hit-testing the layout) to a
//! text position: a run index and a character index within that run. The runs are the page's
//! text runs in depth-first order.

use vstd::prelude::*;
use crate::text::{to_chars, push_char};

verus! {

broadcast use vstd::string::group_string_axioms;

/// `(run, char)` positions in their linear order.
pub open spec fn pos_le(a: (usize, usize), b: (usize, usize)) -> bool {
    a.0 < b.0 || (a.0 == b.0 && a.1 <= b.1)
}

/// The selection's two ends in document order: `(start, end)`.
pub open spec fn ordered(a: (usize, usize), f: (usize, usize)) -> ((usize, usize), (usize, usize)) {
    if pos_le(a, f) {
        (a, f)
    } else {
        (f, a)
    }
}

fn order(a: (usize, usize), f: (usize, usize)) -> (r: ((usize, usize), (usize, usize)))
    ensures
        r == ordered(a, f),
{
    if a.0 < f.0 || (a.0 == f.0 && a.1 <= f.1) {
        (a, f)
    } else {
        (f, a)
    }
}

pub open spec fn min_nat(a: int, b: int) -> int {
    if a < b {
        a
    } else {
        b
    }
}

/// The selected characters `[s, e)` of run `ri` (of `len` characters), if any.
pub open spec fn run_range(len: int, ri: int, start: (usize, usize), end: (usize, usize)) -> Option<
    (usize, usize),
> {
    if ri < start.0 || ri > end.0 {
        None
    } else {
        let s = min_nat(if ri == start.0 { start.1 as int } else { 0 }, len);
        let e = min_nat(if ri == end.0 { end.1 as int } else { len }, len);
        if s < e {
            Some((s as usize, e as usize))
        } else {
            None
        }
    }
}

/// Resolve a selection into a per-run highlight: entry `i` is `Some((s, e))` when run `i` (of
/// `run_lens[i]` characters) has selected characters `[s, e)`, else `None`. Empty when there are
/// no runs or the selection is collapsed.
pub fn selection_ranges(run_lens: &Vec<usize>, anchor: (usize, usize), focus: (usize, usize)) -> (r: Vec<
    Option<(usize, usize)>,
>)
    ensures
        ({
            let (start, end) = ordered(anchor, focus);
            if run_lens@.len() == 0 || start == end {
                r@.len() == 0
            } else {
                &&& r@.len() == run_lens@.len()
                &&& forall|i: int|
                    0 <= i < r@.len() ==> #[trigger] r@[i] == run_range(run_lens@[i] as int, i, start, end)
            }
        }),
{
    if run_lens.len() == 0 {
        return Vec::new();
    }
    let (start, end) = order(anchor, focus);
    if start.0 == end.0 && start.1 == end.1 {
        return Vec::new();
    }
    let mut out: Vec<Option<(usize, usize)>> = Vec::new();
    let mut ri: usize = 0;
    while ri < run_lens.len()
        invariant
            (start, end) == ordered(anchor, focus),
            0 <= ri <= run_lens@.len(),
            out@.len() == ri,
            forall|i: int| 0 <= i < ri ==> #[trigger] out@[i] == run_range(run_lens@[i] as int, i, start, end),
        decreases run_lens@.len() - ri,
    {
        let len = run_lens[ri];
        if ri < start.0 || ri > end.0 {
            out.push(None);
        } else {
            let s0 = if ri == start.0 { start.1 } else { 0 };
            let e0 = if ri == end.0 { end.1 } else { len };
            let s = if s0 < len { s0 } else { len };
            let e = if e0 < len { e0 } else { len };
            if s < e {
                out.push(Some((s, e)));
            } else {
                out.push(None);
            }
        }
        ri += 1;
    }
    out
}

/// The selected text after the runs `start.0 .. k` (`k <= end.0 + 1`): each run's selected
/// characters, with consecutive pieces joined by a newline when the later run starts a lower
/// line (`below[ri]`) and by a space otherwise.
pub open spec fn selected_upto(
    runs: Seq<Seq<char>>,
    below: Seq<bool>,
    start: (usize, usize),
    end: (usize, usize),
    k: int,
) -> Seq<char>
    decreases k - start.0,
{
    if k <= start.0 {
        seq![]
    } else {
        let acc = selected_upto(runs, below, start, end, k - 1);
        let ri = k - 1;
        match run_range(runs[ri].len() as int, ri, start, end) {
            None => acc,
            Some((s, e)) => {
                let piece = runs[ri].subrange(s as int, e as int);
                if acc.len() == 0 {
                    piece
                } else {
                    acc.push(if below[ri] { '\n' } else { ' ' }) + piece
                }
            },
        }
    }
}

/// The selected text: empty when there are no runs or the selection is collapsed.
pub open spec fn spec_selected_text(
    runs: Seq<Seq<char>>,
    below: Seq<bool>,
    anchor: (usize, usize),
    focus: (usize, usize),
) -> Seq<char> {
    let (start, end) = ordered(anchor, focus);
    if runs.len() == 0 || start == end {
        seq![]
    } else {
        selected_upto(runs, below, start, end, end.0 + 1)
    }
}

/// The text of the current selection: the runs from the start position to the end position,
/// each cut to its selected characters, joined with a newline where the next run sits on a lower
/// line (`below_prev[i]`: run `i` lies below run `i - 1`) and with a space otherwise.
pub fn selected_text(
    runs: &Vec<String>,
    below_prev: &Vec<bool>,
    anchor: (usize, usize),
    focus: (usize, usize),
) -> (r: String)
    requires
        below_prev@.len() == runs@.len(),
        ({
            let (start, end) = ordered(anchor, focus);
            runs@.len() > 0 && start != end ==> end.0 < runs@.len()
        }),
    ensures
        r@ == spec_selected_text(
            runs@.map_values(|s: String| s@),
            below_prev@,
            anchor,
            focus,
        ),
{
    let ghost rv = runs@.map_values(|s: String| s@);
    let mut out = String::new();
    if runs.len() == 0 {
        return out;
    }
    let (start, end) = order(anchor, focus);
    if start.0 == end.0 && start.1 == end.1 {
        return out;
    }
    let n = runs.len();
    let mut ri = start.0;
    assert(out@ =~= selected_upto(rv, below_prev@, start, end, ri as int));
    while ri <= end.0
        invariant
            (start, end) == ordered(anchor, focus),
            rv == runs@.map_values(|s: String| s@),
            below_prev@.len() == runs@.len(),
            n == runs@.len(),
            end.0 < n,
            start.0 <= ri <= end.0 + 1,
            out@ == selected_upto(rv, below_prev@, start, end, ri as int),
        decreases end.0 + 1 - ri,
    {
        let chars = to_chars(runs[ri].as_str());
        let len = chars.len();
        assert(rv[ri as int] == runs@[ri as int]@);
        let s0 = if ri == start.0 { start.1 } else { 0 };
        let e0 = if ri == end.0 { end.1 } else { len };
        let s = if s0 < len { s0 } else { len };
        let e = if e0 < len { e0 } else { len };
        if s < e {
            if out.unicode_len() > 0 {
                if below_prev[ri] {
                    push_char(&mut out, '\n');
                } else {
                    push_char(&mut out, ' ');
                }
            }
            let mut k = s;
            let ghost before = out@;
            while k < e
                invariant
                    s <= k <= e <= chars@.len(),
                    out@ == before + chars@.subrange(s as int, k as int),
                decreases e - k,
            {
                push_char(&mut out, chars[k]);
                k += 1;
                assert(out@ =~= before + chars@.subrange(s as int, k as int));
            }
        }
        ri += 1;
        assert(out@ =~= selected_upto(rv, below_prev@, start, end, ri as int));
    }
    out
}

/// Whether the selection selects any text (a collapsed selection selects none).
pub fn has_selection(
    runs: &Vec<String>,
    below_prev: &Vec<bool>,
    anchor: (usize, usize),
    focus: (usize, usize),
) -> (r: bool)
    requires
        below_prev@.len() == runs@.len(),
        ({
            let (start, end) = ordered(anchor, focus);
            runs@.len() > 0 && start != end ==> end.0 < runs@.len()
        }),
    ensures
        r == (spec_selected_text(runs@.map_values(|s: String| s@), below_prev@, anchor, focus).len() > 0),
{
    let t = selected_text(runs, below_prev, anchor, focus);
    t.unicode_len() > 0
}


/// Which end is the anchor does not matter: swapping anchor and focus selects the same runs
/// and the same text.
pub proof fn law_selection_is_symmetric(
    runs: Seq<Seq<char>>,
    below: Seq<bool>,
    anchor: (usize, usize),
    focus: (usize, usize),
)
    ensures
        ordered(anchor, focus) == ordered(focus, anchor),
        spec_selected_text(runs, below, anchor, focus) == spec_selected_text(runs, below, focus, anchor),
{
}

/// A collapsed selection (a bare click, no drag) selects no text.
pub proof fn law_collapsed_selection_is_empty(runs: Seq<Seq<char>>, below: Seq<bool>, at: (usize, usize))
    ensures
        spec_selected_text(runs, below, at, at).len() == 0,
{
}

} // verus!
