//! Fenced span extraction: the literal substring standing strictly between a
//! start marker and the nearest following end marker.
//!
//! A scan walks the text left to right. At each position it tries the start
//! marker; on a match it captures up to the first occurrence of the end
//! marker and resumes right after that marker, so captures never overlap. A
//! start marker with no following end marker (an unterminated span) yields no
//! capture and never aborts the scan. Both markers must be non-empty: an
//! empty marker would match everywhere and delimit nothing.

use vstd::prelude::*;
use vstd::slice::{slice_subrange, slice_to_vec};

verus! {

/// True when `pat` occurs in `text` starting exactly at position `i`.
pub open spec fn is_match_at(text: Seq<char>, pat: Seq<char>, i: int) -> bool {
    0 <= i && i + pat.len() <= text.len() && text.subrange(i, i + pat.len()) == pat
}

/// Position of the first occurrence of `pat` at or after `from`, if any.
pub open spec fn first_match_from(text: Seq<char>, pat: Seq<char>, from: int) -> Option<int>
    decreases text.len() + 1 - from,
{
    if from < 0 || from + pat.len() > text.len() {
        None
    } else if is_match_at(text, pat, from) {
        Some(from)
    } else {
        first_match_from(text, pat, from + 1)
    }
}

/// What `first_match_from` returns is the leftmost match, inside the text's
/// bounds; `None` means no position at or after `from` matches.
pub proof fn lemma_first_match_from(text: Seq<char>, pat: Seq<char>, from: int)
    requires
        0 <= from,
    ensures
        match first_match_from(text, pat, from) {
            Some(j) => from <= j && j + pat.len() <= text.len() && is_match_at(text, pat, j)
                && (forall|k: int| from <= k < j ==> !is_match_at(text, pat, k)),
            None => forall|k: int| from <= k ==> !is_match_at(text, pat, k),
        },
    decreases text.len() + 1 - from,
{
    if from + pat.len() > text.len() {
    } else if is_match_at(text, pat, from) {
    } else {
        lemma_first_match_from(text, pat, from + 1);
    }
}

/// The ordered captures of a scan of `text` that starts probing at `pos`:
/// wherever `start` matches and `end` follows, the substring strictly between
/// them paired with the position where it begins; the scan resumes after the
/// matched end marker. A start marker with no following end marker captures
/// nothing, and nothing can follow it (the end marker occurs nowhere later).
pub open spec fn captures_from(
    text: Seq<char>,
    start: Seq<char>,
    end: Seq<char>,
    pos: int,
) -> Seq<(int, Seq<char>)>
    decreases text.len() - pos,
        when 0 <= pos && start.len() >= 1
        via captures_from_decreases
{
    if pos + start.len() > text.len() {
        Seq::empty()
    } else if is_match_at(text, start, pos) {
        match first_match_from(text, end, pos + start.len()) {
            Some(j) => seq![(pos + start.len(), text.subrange(pos + start.len(), j))]
                + captures_from(text, start, end, j + end.len()),
            None => Seq::empty(),
        }
    } else {
        captures_from(text, start, end, pos + 1)
    }
}

#[via_fn]
proof fn captures_from_decreases(text: Seq<char>, start: Seq<char>, end: Seq<char>, pos: int) {
    if pos + start.len() <= text.len() && is_match_at(text, start, pos) {
        lemma_first_match_from(text, end, pos + start.len());
    }
}

/// All fenced spans of `text` for the marker pair `(start, end)`, leftmost
/// first and non-overlapping.
pub open spec fn captures(text: Seq<char>, start: Seq<char>, end: Seq<char>) -> Seq<(int, Seq<char>)> {
    captures_from(text, start, end, 0)
}

/// The mathematical value of one captured usage: its position and its text.
pub open spec fn usage_view(u: (usize, Vec<char>)) -> (int, Seq<char>) {
    (u.0 as int, u.1@)
}

/// The mathematical value of a sequence of captured usages.
pub open spec fn usages_view(us: Seq<(usize, Vec<char>)>) -> Seq<(int, Seq<char>)> {
    us.map_values(|u: (usize, Vec<char>)| usage_view(u))
}

/// Once the end marker occurs nowhere at or after `from`, a scan probing at
/// or before that point captures nothing more.
proof fn lemma_no_end_no_captures(
    text: Seq<char>,
    start: Seq<char>,
    end: Seq<char>,
    pos: int,
    from: int,
)
    requires
        start.len() >= 1,
        0 <= pos,
        0 <= from <= pos + start.len(),
        first_match_from(text, end, from) is None,
    ensures
        captures_from(text, start, end, pos) == Seq::<(int, Seq<char>)>::empty(),
    decreases text.len() + 1 - pos,
{
    if pos + start.len() > text.len() {
    } else if is_match_at(text, start, pos) {
        lemma_first_match_from(text, end, from);
        lemma_first_match_from(text, end, pos + start.len());
        if first_match_from(text, end, pos + start.len()) is Some {
            let j = first_match_from(text, end, pos + start.len()).unwrap();
            assert(is_match_at(text, end, j));
            assert(!is_match_at(text, end, j));
        }
    } else {
        lemma_no_end_no_captures(text, start, end, pos + 1, from);
    }
}

/// An unterminated span is tolerated: a start marker whose end marker never
/// follows yields no capture, and the scan behaves exactly as if it went on
/// probing from the next position.
pub proof fn lemma_unterminated_tolerance(text: Seq<char>, start: Seq<char>, end: Seq<char>, pos: int)
    requires
        start.len() >= 1,
        0 <= pos,
        is_match_at(text, start, pos),
        first_match_from(text, end, pos + start.len()) is None,
    ensures
        captures_from(text, start, end, pos) == captures_from(text, start, end, pos + 1),
        captures_from(text, start, end, pos) == Seq::<(int, Seq<char>)>::empty(),
{
    lemma_no_end_no_captures(text, start, end, pos, pos + start.len());
    lemma_no_end_no_captures(text, start, end, pos + 1, pos + start.len());
}

/// Extraction is deterministic: any two results that `extract_all`'s
/// contract admits for the same text and the same marker pair are the same
/// ordered sequence of captures.
pub proof fn lemma_extraction_deterministic(
    text: Seq<char>,
    start: Seq<char>,
    end: Seq<char>,
    r1: Seq<(int, Seq<char>)>,
    r2: Seq<(int, Seq<char>)>,
)
    requires
        r1 == captures(text, start, end),
        r2 == captures(text, start, end),
    ensures
        r1 == r2,
{
}

/// Whether `pat` occurs in `text` starting exactly at position `i`.
pub fn match_at(text: &[char], pat: &[char], i: usize) -> (r: bool)
    requires
        i <= text@.len(),
    ensures
        r == is_match_at(text@, pat@, i as int),
{
    if pat.len() > text.len() - i {
        return false;
    }
    let mut k: usize = 0;
    while k < pat.len()
        invariant
            k <= pat@.len(),
            i + pat@.len() <= text@.len(),
            text@.len() <= usize::MAX,
            forall|m: int| 0 <= m < k ==> text@[i + m] == pat@[m],
        decreases pat@.len() - k,
    {
        if text[i + k] != pat[k] {
            assert(text@.subrange(i as int, i + pat@.len()) != pat@) by {
                assert(text@.subrange(i as int, i + pat@.len())[k as int] != pat@[k as int]);
            }
            return false;
        }
        k = k + 1;
    }
    proof {
        assert(text@.subrange(i as int, i + pat@.len()) =~= pat@);
    }
    true
}

/// Position of the first occurrence of `pat` in `text` at or after `from`,
/// if any.
pub fn find_from(text: &[char], pat: &[char], from: usize) -> (r: Option<usize>)
    requires
        from <= text@.len(),
    ensures
        match r {
            Some(j) => first_match_from(text@, pat@, from as int) == Some(j as int)
                && from <= j && j + pat@.len() <= text@.len(),
            None => first_match_from(text@, pat@, from as int) is None,
        },
{
    let mut i: usize = from;
    while i <= text.len() && pat.len() <= text.len() - i
        invariant
            from <= i <= text@.len() + 1,
            i <= text@.len() + 1,
            first_match_from(text@, pat@, from as int) == first_match_from(text@, pat@, i as int),
        decreases text@.len() + 1 - i,
    {
        if match_at(text, pat, i) {
            return Some(i);
        }
        proof {
            assert(pat@.len() >= 1) by {
                if pat@.len() == 0 {
                    assert(text@.subrange(i as int, i as int) =~= pat@);
                }
            }
        }
        i = i + 1;
    }
    proof {
        assert(first_match_from(text@, pat@, i as int) is None);
    }
    None
}

/// All fenced spans of `text` for the marker pair `(start, end)`: each
/// substring standing strictly between an occurrence of `start` and the
/// nearest following `end`, leftmost first and non-overlapping, paired with
/// the character position where the captured span begins.
pub fn extract_all(text: &[char], start: &[char], end: &[char]) -> (r: Vec<(usize, Vec<char>)>)
    requires
        start@.len() >= 1,
        end@.len() >= 1,
    ensures
        usages_view(r@) == captures(text@, start@, end@),
{
    let mut r: Vec<(usize, Vec<char>)> = Vec::new();
    let mut pos: usize = 0;
    proof {
        assert(usages_view(r@) =~= Seq::<(int, Seq<char>)>::empty());
    }
    while pos <= text.len() && start.len() <= text.len() - pos
        invariant
            start@.len() >= 1,
            end@.len() >= 1,
            pos <= text@.len() + 1,
            captures(text@, start@, end@) == usages_view(r@)
                + captures_from(text@, start@, end@, pos as int),
        decreases text@.len() + 1 - pos,
    {
        if match_at(text, start, pos) {
            let cap_start = pos + start.len();
            match find_from(text, end, cap_start) {
                Some(j) => {
                    let key = slice_to_vec(slice_subrange(text, cap_start, j));
                    proof {
                        let ghost prev = r@;
                        assert(usages_view(prev.push((cap_start, key)))
                            =~= usages_view(prev) + seq![(cap_start as int, key@)]);
                    }
                    r.push((cap_start, key));
                    pos = j + end.len();
                }
                None => {
                    return r;
                }
            }
        } else {
            pos = pos + 1;
        }
    }
    r
}

} // verus!
