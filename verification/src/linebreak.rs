//! Break opportunities *inside* a text run (a UAX #14 subset for CJK).
//!
//! Inline layout treats the text between breaking spaces as one atomic unit, so a line can only
//! ever be broken where the author wrote a space. That is fine for Latin prose but wrong for
//! scripts that don't use spaces: a Japanese or Chinese paragraph is a single unbreakable "word".
//!
//! The rules implemented, from UAX #14:
//!
//! * a break is allowed between two ideographic characters (LB18/LB999),
//! * never *before* a closing bracket, sentence-ending mark, or non-starter such as a small kana
//!   or a prolonged sound mark (LB13/LB16/LB19) — those may not begin a line,
//! * never *after* an opening bracket (LB14) — it may not end a line.
//!
//! `word-break` selects between three answers: `normal` gives the ideograph-to-ideograph
//! opportunities above, `break-all` adds one between every pair including Latin, and `keep-all`
//! removes the letter-to-letter ones so a run wraps only at spaces (and after U+3000). The pair
//! prohibitions apply to all three.
//!
//! Hangul is deliberately excluded from the ideographic set: Korean is written with spaces.

use vstd::prelude::*;
use crate::style::WordBreak;
use crate::text::to_chars;

verus! {

broadcast use vstd::string::group_string_axioms;

/// Han, kana, CJK punctuation and the fullwidth forms (not Hangul).
pub open spec fn spec_is_ideographic(c: char) -> bool {
    let u = c as u32;
    ||| 0x2E80 <= u <= 0x2EFF
    ||| 0x3000 <= u <= 0x303F
    ||| 0x3040 <= u <= 0x309F
    ||| 0x30A0 <= u <= 0x30FF
    ||| 0x31F0 <= u <= 0x31FF
    ||| 0x3400 <= u <= 0x4DBF
    ||| 0x4E00 <= u <= 0x9FFF
    ||| 0xF900 <= u <= 0xFAFF
    ||| 0xFF00 <= u <= 0xFFEF
    ||| 0x20000 <= u <= 0x2FA1F
}

/// Characters we apply ideographic breaking to: Han, kana, CJK punctuation and the fullwidth
/// forms. Deliberately excludes Hangul.
pub fn is_ideographic(c: char) -> (r: bool)
    ensures
        r == spec_is_ideographic(c),
{
    let u = c as u32;
    (0x2E80 <= u && u <= 0x2EFF) || (0x3000 <= u && u <= 0x303F) || (0x3040 <= u && u <= 0x309F)
        || (0x30A0 <= u && u <= 0x30FF) || (0x31F0 <= u && u <= 0x31FF) || (0x3400 <= u && u
        <= 0x4DBF) || (0x4E00 <= u && u <= 0x9FFF) || (0xF900 <= u && u <= 0xFAFF) || (0xFF00
        <= u && u <= 0xFFEF) || (0x20000 <= u && u <= 0x2FA1F)
}

/// Closing brackets (CL/CP), sentence-ending and separating marks (EX/IS), and non-starters (NS).
pub open spec fn spec_forbidden_at_line_start(c: char) -> bool {
    matches!(
        c,
        '）' | '〕' | '］' | '｝' | '〉' | '》' | '」' | '』' | '】' | '〗' | '〙' | '〛'
        | '｠' | '〞' | '’' | '”'
        | '、' | '。' | '，' | '．' | '：' | '；' | '！' | '？' | '‼' | '⁇' | '⁈' | '⁉'
        | '・' | '･' | '｡' | '､'
        | 'ー' | 'ｰ' | 'ゝ' | 'ゞ' | '々' | '〻' | '〳' | '〴' | '〵'
        | 'ぁ' | 'ぃ' | 'ぅ' | 'ぇ' | 'ぉ' | 'っ' | 'ゃ' | 'ゅ' | 'ょ' | 'ゎ' | 'ゕ' | 'ゖ'
        | 'ァ' | 'ィ' | 'ゥ' | 'ェ' | 'ォ' | 'ッ' | 'ャ' | 'ュ' | 'ョ' | 'ヮ' | 'ヵ' | 'ヶ'
        | 'ﾞ' | 'ﾟ'
    )
}

/// Classes that may not *begin* a line.
pub fn forbidden_at_line_start(c: char) -> (r: bool)
    ensures
        r == spec_forbidden_at_line_start(c),
{
    matches!(
        c,
        '）' | '〕' | '］' | '｝' | '〉' | '》' | '」' | '』' | '】' | '〗' | '〙' | '〛'
        | '｠' | '〞' | '’' | '”'
        | '、' | '。' | '，' | '．' | '：' | '；' | '！' | '？' | '‼' | '⁇' | '⁈' | '⁉'
        | '・' | '･' | '｡' | '､'
        | 'ー' | 'ｰ' | 'ゝ' | 'ゞ' | '々' | '〻' | '〳' | '〴' | '〵'
        | 'ぁ' | 'ぃ' | 'ぅ' | 'ぇ' | 'ぉ' | 'っ' | 'ゃ' | 'ゅ' | 'ょ' | 'ゎ' | 'ゕ' | 'ゖ'
        | 'ァ' | 'ィ' | 'ゥ' | 'ェ' | 'ォ' | 'ッ' | 'ャ' | 'ュ' | 'ョ' | 'ヮ' | 'ヵ' | 'ヶ'
        | 'ﾞ' | 'ﾟ'
    )
}

/// Opening brackets (OP), which may not *end* a line.
pub open spec fn spec_forbidden_at_line_end(c: char) -> bool {
    matches!(
        c,
        '（' | '〔' | '［' | '｛' | '〈' | '《' | '「' | '『' | '【' | '〖' | '〘' | '〚' | '｟' | '〝' | '‘' | '“'
    )
}

pub fn forbidden_at_line_end(c: char) -> (r: bool)
    ensures
        r == spec_forbidden_at_line_end(c),
{
    matches!(
        c,
        '（' | '〔' | '［' | '｛' | '〈' | '《' | '「' | '『' | '【' | '〖' | '〘' | '〚' | '｟' | '〝' | '‘' | '“'
    )
}

/// Whether a line may break between `prev` and `next` under `mode`.
pub open spec fn spec_can_break_between(prev: char, next: char, mode: WordBreak) -> bool {
    if spec_forbidden_at_line_start(next) || spec_forbidden_at_line_end(prev) {
        false
    } else if prev == '\u{3000}' {
        true
    } else {
        match mode {
            WordBreak::KeepAll => false,
            WordBreak::BreakAll => true,
            WordBreak::Normal => spec_is_ideographic(prev) && spec_is_ideographic(next),
        }
    }
}

/// Whether a line may break between `prev` and `next` under `mode`.
///
/// The pair prohibitions are checked first because they hold regardless of `word-break`: even
/// `break-all` must not strand a closing bracket or a full stop at the start of a line.
/// U+3000 IDEOGRAPHIC SPACE is a space, so the opportunity after it survives `keep-all`.
pub fn can_break_between(prev: char, next: char, mode: WordBreak) -> (r: bool)
    ensures
        r == spec_can_break_between(prev, next, mode),
{
    if forbidden_at_line_start(next) || forbidden_at_line_end(prev) {
        return false;
    }
    if prev == '\u{3000}' {
        return true;
    }
    match mode {
        WordBreak::KeepAll => false,
        WordBreak::BreakAll => true,
        WordBreak::Normal => is_ideographic(prev) && is_ideographic(next),
    }
}

/// Cheap pre-check so the common all-Latin run does no segmentation work at all.
pub fn has_ideographic(s: &str) -> (r: bool)
    ensures
        r == exists|i: int| 0 <= i < s@.len() && spec_is_ideographic(#[trigger] s@[i]),
{
    let v = to_chars(s);
    let mut i: usize = 0;
    while i < v.len()
        invariant
            v@ == s@,
            0 <= i <= v@.len(),
            forall|k: int| 0 <= k < i ==> !spec_is_ideographic(#[trigger] v@[k]),
        decreases v@.len() - i,
    {
        if is_ideographic(v[i]) {
            return true;
        }
        i += 1;
    }
    false
}

/// Whether a break may fall just before index `i` of `s`.
pub open spec fn break_before(s: Seq<char>, i: int, mode: WordBreak) -> bool {
    0 < i < s.len() && spec_can_break_between(s[i - 1], s[i], mode)
}

/// The segments completed, and the start of the open one, after scanning the first `n`
/// characters of `s`.
pub open spec fn seg_state(s: Seq<char>, n: int, mode: WordBreak) -> (Seq<Seq<char>>, int)
    decreases n,
{
    if n <= 0 {
        (seq![], 0)
    } else {
        let (segs, start) = seg_state(s, n - 1, mode);
        if break_before(s, n - 1, mode) {
            (segs.push(s.subrange(start, n - 1)), n - 1)
        } else {
            (segs, start)
        }
    }
}

/// `s` cut at every break opportunity.
pub open spec fn spec_segments(s: Seq<char>, mode: WordBreak) -> Seq<Seq<char>> {
    let (segs, start) = seg_state(s, s.len() as int, mode);
    segs.push(s.subrange(start, s.len() as int))
}

pub open spec fn str_slices(v: Seq<&str>) -> Seq<Seq<char>> {
    v.map_values(|x: &str| x@)
}

/// Split a run into the largest pieces that must stay together on one line.
///
/// Returns one segment when there is no interior break opportunity, so callers can treat the
/// result uniformly.
pub fn segments(run: &str, mode: WordBreak) -> (r: Vec<&str>)
    ensures
        str_slices(r@) == spec_segments(run@, mode),
{
    let chars = to_chars(run);
    let n = chars.len();
    let mut out: Vec<&str> = Vec::new();
    let mut start: usize = 0;
    let mut i: usize = 0;
    while i < n
        invariant
            chars@ == run@,
            n == chars@.len(),
            0 <= start <= i <= n,
            (str_slices(out@), start as int) == seg_state(run@, i as int, mode),
        decreases n - i,
    {
        if i > 0 && can_break_between(chars[i - 1], chars[i], mode) {
            let piece = run.substring_char(start, i);
            let ghost before = out@;
            out.push(piece);
            assert(str_slices(out@) =~= str_slices(before).push(piece@));
            start = i;
        }
        i += 1;
    }
    let last = run.substring_char(start, n);
    let ghost before = out@;
    out.push(last);
    assert(str_slices(out@) =~= str_slices(before).push(last@));
    out
}


/// What holds of the scan state after `n` characters: the completed segments are non-empty,
/// they spell out `s` up to the open segment's start, and every boundary between them (and
/// the start of the open segment) is a break opportunity.
proof fn lemma_seg_state(s: Seq<char>, n: int, mode: WordBreak)
    requires
        0 <= n <= s.len(),
    ensures
        ({
            let (segs, start) = seg_state(s, n, mode);
            &&& 0 <= start <= n
            &&& n > 0 ==> start < n
            &&& segs.flatten() == s.take(start)
            &&& forall|k: int| 0 <= k < segs.len() ==> (#[trigger] segs[k]).len() > 0
            &&& forall|k: int|
                0 <= k < segs.len() - 1 ==> spec_can_break_between(
                    (#[trigger] segs[k]).last(),
                    segs[k + 1][0],
                    mode,
                )
            &&& segs.len() > 0 ==> break_before(s, start, mode) && segs.last().last() == s[start
                - 1]
            &&& segs.len() == 0 ==> start == 0
        }),
    decreases n,
{
    broadcast use vstd::seq_lib::group_seq_properties;

    if n > 0 {
        lemma_seg_state(s, n - 1, mode);
        let (segs, start) = seg_state(s, n - 1, mode);
        if break_before(s, n - 1, mode) {
            let piece = s.subrange(start, n - 1);
            let segs2 = segs.push(piece);
            segs.lemma_flatten_push(piece);
            assert(s.take(start) + piece =~= s.take(n - 1));
            assert forall|k: int| 0 <= k < segs2.len() implies (#[trigger] segs2[k]).len() > 0 by {
                if k < segs.len() {
                    assert(segs2[k] == segs[k]);
                } else {
                    assert(start < n - 1);
                }
            }
            assert forall|k: int| 0 <= k < segs2.len() - 1 implies spec_can_break_between(
                (#[trigger] segs2[k]).last(),
                segs2[k + 1][0],
                mode,
            ) by {
                assert(segs2[k] == segs[k]);
                if k == segs.len() - 1 {
                    assert(segs2[k + 1] == piece);
                    assert(piece[0] == s[start]);
                } else {
                    assert(segs2[k + 1] == segs[k + 1]);
                }
            }
        }
    } else {
        assert(s.take(0) =~= Seq::<char>::empty());
    }
}

/// Cutting a run never loses, reorders or invents text: the segments spell out the run.
pub proof fn law_segments_concat(run: Seq<char>, mode: WordBreak)
    ensures
        spec_segments(run, mode).flatten() == run,
{
    broadcast use vstd::seq_lib::group_seq_properties;

    lemma_seg_state(run, run.len() as int, mode);
    let (segs, start) = seg_state(run, run.len() as int, mode);
    let last = run.subrange(start, run.len() as int);
    segs.lemma_flatten_push(last);
    assert(run.take(start) + last =~= run);
}

/// Every segment of a non-empty run is non-empty, and every cut between two segments is a
/// break opportunity — so no value of `word-break` leaves a closing mark at the start of a
/// line or an opening bracket at the end of one.
pub proof fn law_segment_boundaries(run: Seq<char>, mode: WordBreak)
    requires
        run.len() > 0,
    ensures
        forall|k: int|
            0 <= k < spec_segments(run, mode).len() ==> (#[trigger] spec_segments(run, mode)[k]).len()
                > 0,
        forall|k: int|
            0 <= k < spec_segments(run, mode).len() - 1 ==> {
                let a = #[trigger] spec_segments(run, mode)[k];
                let b = spec_segments(run, mode)[k + 1];
                &&& spec_can_break_between(a.last(), b[0], mode)
                &&& !spec_forbidden_at_line_start(b[0])
                &&& !spec_forbidden_at_line_end(a.last())
            },
{
    lemma_seg_state(run, run.len() as int, mode);
    let (segs, start) = seg_state(run, run.len() as int, mode);
    let last = run.subrange(start, run.len() as int);
    let all = segs.push(last);
    assert(all == spec_segments(run, mode));
    assert forall|k: int| 0 <= k < all.len() implies (#[trigger] all[k]).len() > 0 by {
        if k < segs.len() {
            assert(all[k] == segs[k]);
        }
    }
    assert forall|k: int| 0 <= k < all.len() - 1 implies spec_can_break_between(
        (#[trigger] all[k]).last(),
        all[k + 1][0],
        mode,
    ) by {
        assert(all[k] == segs[k]);
        if k == segs.len() - 1 {
            assert(all[k + 1] == last);
            assert(last[0] == run[start]);
        } else {
            assert(all[k + 1] == segs[k + 1]);
        }
    }
}

/// The marks that may not begin a line: closing brackets and quotes, sentence-ending and
/// separating marks (such as `、` and `。`), and non-starters (the prolonged sound mark,
/// iteration marks, small kana).
pub open spec fn line_start_marks() -> Set<char> {
    set!['）', '〕', '］', '｝', '〉', '》', '」', '』', '】', '〗', '〙', '〛', '｠', '〞', '’', '”', '、', '。', '，', '．', '：', '；', '！', '？', '‼', '⁇', '⁈', '⁉', '・', '･', '｡', '､', 'ー', 'ｰ', 'ゝ', 'ゞ', '々', '〻', '〳', '〴', '〵', 'ぁ', 'ぃ', 'ぅ', 'ぇ', 'ぉ', 'っ', 'ゃ', 'ゅ', 'ょ', 'ゎ', 'ゕ', 'ゖ', 'ァ', 'ィ', 'ゥ', 'ェ', 'ォ', 'ッ', 'ャ', 'ュ', 'ョ', 'ヮ', 'ヵ', 'ヶ', 'ﾞ', 'ﾟ']
}

/// The marks that may not end a line: opening brackets and quotes.
pub open spec fn line_end_marks() -> Set<char> {
    set!['（', '〔', '［', '｛', '〈', '《', '「', '『', '【', '〖', '〘', '〚', '｟', '〝', '‘', '“']
}

/// Exactly the listed marks are kept off the start of a line, and exactly the listed opening
/// brackets off its end.
pub proof fn law_kinsoku_marks(c: char)
    ensures
        spec_forbidden_at_line_start(c) <==> line_start_marks().contains(c),
        spec_forbidden_at_line_end(c) <==> line_end_marks().contains(c),
{
}

/// Whatever the run and the `word-break` value, no segment after the first starts with one of
/// the marks that may not begin a line (so `、` and `。` stay with the text before them), and
/// no segment before the last ends with an opening bracket.
pub proof fn law_no_segment_starts_with_a_closing_mark(run: Seq<char>, mode: WordBreak)
    requires
        run.len() > 0,
    ensures
        forall|k: int|
            0 < k < spec_segments(run, mode).len() ==> !line_start_marks().contains(
                (#[trigger] spec_segments(run, mode)[k])[0],
            ),
        forall|k: int|
            0 <= k < spec_segments(run, mode).len() - 1 ==> !line_end_marks().contains(
                (#[trigger] spec_segments(run, mode)[k]).last(),
            ),
{
    law_segment_boundaries(run, mode);
    let all = spec_segments(run, mode);
    assert forall|k: int| 0 < k < all.len() implies !line_start_marks().contains((#[trigger] all[k])[0]) by {
        assert(all[k - 1].len() > 0 && all[k].len() > 0);
        assert(!spec_forbidden_at_line_start(all[k][0]));
        law_kinsoku_marks(all[k][0]);
    }
    assert forall|k: int| 0 <= k < all.len() - 1 implies !line_end_marks().contains((#[trigger] all[k]).last()) by {
        assert(!spec_forbidden_at_line_end(all[k].last()));
        law_kinsoku_marks(all[k].last());
    }
}

/// A run with no interior break opportunity stays in one piece; in particular an all-Latin
/// run under `word-break: normal` is never segmented.
pub proof fn law_unbreakable_run_is_one_segment(run: Seq<char>, mode: WordBreak)
    requires
        forall|i: int| 0 < i < run.len() ==> !break_before(run, i, mode),
    ensures
        spec_segments(run, mode) == seq![run],
{
    assert forall|n: int| 0 <= n <= run.len() implies #[trigger] seg_state(run, n, mode) == (
    Seq::<Seq<char>>::empty(), 0int) by {
        lemma_seg_state_no_break(run, n, mode);
    }
    assert(run.subrange(0, run.len() as int) =~= run);
    assert(spec_segments(run, mode) =~= seq![run]);
}

proof fn lemma_seg_state_no_break(run: Seq<char>, n: int, mode: WordBreak)
    requires
        0 <= n <= run.len(),
        forall|i: int| 0 < i < run.len() ==> !break_before(run, i, mode),
    ensures
        seg_state(run, n, mode) == (Seq::<Seq<char>>::empty(), 0int),
    decreases n,
{
    if n > 0 {
        lemma_seg_state_no_break(run, n - 1, mode);
        assert(!break_before(run, n - 1, mode));
    }
}

/// Under `word-break: normal` a run without ideographic characters has no interior break.
pub proof fn law_latin_normal_run_unbroken(run: Seq<char>)
    requires
        forall|i: int| 0 <= i < run.len() ==> !spec_is_ideographic(#[trigger] run[i]),
    ensures
        spec_segments(run, WordBreak::Normal) == seq![run],
{
    assert forall|i: int| 0 < i < run.len() implies !break_before(run, i, WordBreak::Normal) by {
        assert(!spec_is_ideographic(run[i - 1]));
        assert((run[i - 1] as u32) != 0x3000);
    }
    law_unbreakable_run_is_one_segment(run, WordBreak::Normal);
}


/// Under `word-break: keep-all` a run wraps only after an ideographic space: every segment but
/// the last ends with U+3000.
pub proof fn law_keep_all_breaks_only_after_ideographic_space(run: Seq<char>)
    requires
        run.len() > 0,
    ensures
        forall|k: int|
            0 <= k < spec_segments(run, WordBreak::KeepAll).len() - 1 ==> (#[trigger] spec_segments(
                run,
                WordBreak::KeepAll,
            )[k]).last() == '\u{3000}',
{
    law_segment_boundaries(run, WordBreak::KeepAll);
    let segs = spec_segments(run, WordBreak::KeepAll);
    assert forall|k: int| 0 <= k < segs.len() - 1 implies (#[trigger] segs[k]).last() == '\u{3000}' by {
        let a = segs[k];
        let b = segs[k + 1];
        assert(spec_can_break_between(a.last(), b[0], WordBreak::KeepAll));
    }
}


/// No break opportunity lies inside the open segment or inside any completed segment.
proof fn lemma_seg_state_inside(s: Seq<char>, n: int, mode: WordBreak)
    requires
        0 <= n <= s.len(),
    ensures
        ({
            let (segs, start) = seg_state(s, n, mode);
            &&& forall|i: int| start < i < n ==> !break_before(s, i, mode)
            &&& forall|k: int, m: int|
                #![trigger segs[k][m]]
                0 <= k < segs.len() && 0 < m < segs[k].len() ==> !spec_can_break_between(
                    segs[k][m - 1],
                    segs[k][m],
                    mode,
                )
        }),
    decreases n,
{
    if n > 0 {
        lemma_seg_state_inside(s, n - 1, mode);
        lemma_seg_state(s, n - 1, mode);
        let (segs, start) = seg_state(s, n - 1, mode);
        if break_before(s, n - 1, mode) {
            let piece = s.subrange(start, n - 1);
            let segs2 = segs.push(piece);
            assert forall|k: int, m: int|
                #![trigger segs2[k][m]]
                0 <= k < segs2.len() && 0 < m < segs2[k].len() implies !spec_can_break_between(
                    segs2[k][m - 1],
                    segs2[k][m],
                    mode,
                ) by {
                if k < segs.len() {
                    assert(segs2[k] == segs[k]);
                } else {
                    assert(segs2[k] == piece);
                    assert(piece[m - 1] == s[start + m - 1] && piece[m] == s[start + m]);
                    assert(!break_before(s, start + m, mode));
                }
            }
        }
    }
}

/// Conversely to `law_segment_boundaries`, every break opportunity between adjacent characters
/// is a segment boundary: no two adjacent characters inside one segment may be broken between.
pub proof fn law_no_break_inside_a_segment(run: Seq<char>, mode: WordBreak)
    ensures
        forall|k: int, m: int|
            #![trigger spec_segments(run, mode)[k][m]]
            0 <= k < spec_segments(run, mode).len() && 0 < m < spec_segments(run, mode)[k].len()
                ==> !spec_can_break_between(
                spec_segments(run, mode)[k][m - 1],
                spec_segments(run, mode)[k][m],
                mode,
            ),
{
    lemma_seg_state_inside(run, run.len() as int, mode);
    lemma_seg_state(run, run.len() as int, mode);
    let (segs, start) = seg_state(run, run.len() as int, mode);
    let last = run.subrange(start, run.len() as int);
    let all = segs.push(last);
    assert(all == spec_segments(run, mode));
    assert forall|k: int, m: int|
        #![trigger all[k][m]]
        0 <= k < all.len() && 0 < m < all[k].len() implies !spec_can_break_between(
            all[k][m - 1],
            all[k][m],
            mode,
        ) by {
        if k < segs.len() {
            assert(all[k] == segs[k]);
        } else {
            assert(all[k] == last);
            assert(last[m - 1] == run[start + m - 1] && last[m] == run[start + m]);
            assert(!break_before(run, start + m, mode));
        }
    }
}

} // verus!
