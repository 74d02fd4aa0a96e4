//! The translation table: a key/value mapping loaded from the lines of a
//! locale file, compared against another table for structural compatibility
//! and against the observed used-key set for invalid and unused keys.
//!
//! The line grammar is `key=value`, split on the first `=`; key and value are
//! both trimmed of surrounding blanks, so a value of only blanks counts as
//! empty. Blank lines are skipped. A line with no `=`, or with an empty key,
//! is malformed and fails the whole load, reporting the first such line by
//! its position among the file's lines, counted from zero. When one key
//! occurs on several lines, the first occurrence wins and the later lines
//! are dropped; keys are therefore unique within a loaded table.

use vstd::prelude::*;
use vstd::slice::{slice_subrange, slice_to_vec};
use crate::fenced::first_match_from;
use crate::fenced::lemma_first_match_from;
use crate::text::chars_eq;
use crate::ts_file::keys_view;
use crate::ts_file::keys_contain;

verus! {

/// A character that trimming removes at either end of a line.
pub open spec fn is_blank_char(c: char) -> bool {
    c == ' ' || c == '\t' || c == '\r' || c == '\n'
}

/// `s` without its leading and trailing blank characters.
pub open spec fn trim(s: Seq<char>) -> Seq<char>
    decreases s.len(),
{
    if s.len() == 0 {
        s
    } else if is_blank_char(s.first()) {
        trim(s.drop_first())
    } else if is_blank_char(s.last()) {
        trim(s.drop_last())
    } else {
        s
    }
}

/// Trimming keeps exactly the span between the first and last non-blank
/// characters: a blank prefix up to `lo` and a blank suffix from `hi` on are
/// dropped, and nothing else.
proof fn lemma_trim_is_subrange(s: Seq<char>, lo: int, hi: int)
    requires
        0 <= lo <= hi <= s.len(),
        forall|k: int| 0 <= k < lo ==> is_blank_char(s[k]),
        forall|k: int| hi <= k < s.len() ==> is_blank_char(s[k]),
        lo < hi ==> !is_blank_char(s[lo]) && !is_blank_char(s[hi - 1]),
    ensures
        trim(s) == s.subrange(lo, hi),
    decreases s.len(),
{
    if s.len() == 0 {
        assert(trim(s) =~= s.subrange(lo, hi));
    } else if is_blank_char(s.first()) {
        let t = s.drop_first();
        if lo >= 1 {
            assert(forall|k: int| 0 <= k < lo - 1 ==> is_blank_char(#[trigger] t[k]));
            assert(forall|k: int| hi - 1 <= k < t.len() ==> is_blank_char(#[trigger] t[k]));
            lemma_trim_is_subrange(t, lo - 1, hi - 1);
            assert(t.subrange(lo - 1, hi - 1) =~= s.subrange(lo, hi));
        } else {
            assert(lo == hi) by {
                if lo < hi {
                    assert(!is_blank_char(s[0]));
                }
            }
            assert(forall|k: int| 0 <= k < t.len() ==> is_blank_char(#[trigger] t[k]));
            lemma_trim_is_subrange(t, 0, 0);
            assert(t.subrange(0, 0) =~= s.subrange(lo, hi));
        }
    } else if is_blank_char(s.last()) {
        assert(lo == 0);
        assert(hi < s.len()) by {
            if hi == s.len() {
                if lo < hi {
                    assert(!is_blank_char(s[s.len() - 1]));
                } else {
                    assert(is_blank_char(s[0]));
                }
            }
        }
        let t = s.drop_last();
        assert(forall|k: int| hi <= k < t.len() ==> is_blank_char(#[trigger] t[k]));
        lemma_trim_is_subrange(t, lo, hi);
        assert(t.subrange(lo, hi) =~= s.subrange(lo, hi));
    } else {
        assert(lo == 0);
        assert(hi == s.len()) by {
            if hi < s.len() {
                assert(is_blank_char(s[s.len() - 1]));
            }
        }
        assert(trim(s) =~= s.subrange(lo, hi));
    }
}

/// `s` with its surrounding blanks removed.
pub fn trim_slice(s: &[char]) -> (r: Vec<char>)
    ensures
        r@ == trim(s@),
{
    let mut lo: usize = 0;
    while lo < s.len() && (s[lo] == ' ' || s[lo] == '\t' || s[lo] == '\r' || s[lo] == '\n')
        invariant
            lo <= s@.len(),
            forall|k: int| 0 <= k < lo ==> is_blank_char(s@[k]),
        decreases s@.len() - lo,
    {
        lo = lo + 1;
    }
    let mut hi: usize = s.len();
    while hi > lo && (s[hi - 1] == ' ' || s[hi - 1] == '\t' || s[hi - 1] == '\r' || s[hi - 1]
        == '\n')
        invariant
            lo <= hi <= s@.len(),
            forall|k: int| hi <= k < s@.len() ==> is_blank_char(s@[k]),
            lo < s@.len() ==> !is_blank_char(s@[lo as int]),
        decreases hi,
    {
        hi = hi - 1;
    }
    proof {
        lemma_trim_is_subrange(s@, lo as int, hi as int);
    }
    slice_to_vec(slice_subrange(s, lo, hi))
}

/// What one line of a locale file means.
pub enum LineKind {
    /// Only blanks: the line is skipped.
    Blank,
    /// A well-formed `key=value` line, both sides trimmed, the key non-empty.
    Entry { key: Seq<char>, value: Seq<char> },
    /// No `=`, or an empty key: the whole load fails.
    Malformed,
}

/// Classifies one line: blank lines are skipped, otherwise the line is split
/// on its first `=` into a trimmed key and a trimmed value.
pub open spec fn classify_line(line: Seq<char>) -> LineKind {
    if trim(line).len() == 0 {
        LineKind::Blank
    } else {
        match first_match_from(line, seq!['='], 0) {
            Some(i) => {
                let key = trim(line.subrange(0, i));
                let value = trim(line.subrange(i + 1, line.len() as int));
                if key.len() == 0 {
                    LineKind::Malformed
                } else {
                    LineKind::Entry { key, value }
                }
            },
            None => LineKind::Malformed,
        }
    }
}

/// Whether some entry of `es` has key `k`.
pub open spec fn has_key(es: Seq<(Seq<char>, Seq<char>)>, k: Seq<char>) -> bool {
    exists|i: int| 0 <= i < es.len() && es[i].0 == k
}

/// No two entries share a key.
pub open spec fn unique_keys(es: Seq<(Seq<char>, Seq<char>)>) -> bool {
    forall|i: int, j: int| 0 <= i < j < es.len() ==> es[i].0 != es[j].0
}

/// Adds an entry under the first-occurrence-wins rule: a key already present
/// keeps its earlier value and the new pair is dropped.
pub open spec fn insert_entry(
    es: Seq<(Seq<char>, Seq<char>)>,
    k: Seq<char>,
    v: Seq<char>,
) -> Seq<(Seq<char>, Seq<char>)> {
    if has_key(es, k) {
        es
    } else {
        es.push((k, v))
    }
}

/// The table that a list of lines denotes, or the position of the first
/// malformed line.
pub open spec fn parse_lines(lines: Seq<Seq<char>>) -> Result<Seq<(Seq<char>, Seq<char>)>, int>
    decreases lines.len(),
{
    if lines.len() == 0 {
        Ok(Seq::empty())
    } else {
        match parse_lines(lines.drop_last()) {
            Err(e) => Err(e),
            Ok(es) => match classify_line(lines.last()) {
                LineKind::Blank => Ok(es),
                LineKind::Entry { key, value } => Ok(insert_entry(es, key, value)),
                LineKind::Malformed => Err(lines.len() - 1),
            },
        }
    }
}

/// A load that has already failed stays failed whatever lines follow.
proof fn lemma_parse_lines_err(pref: Seq<Seq<char>>, rest: Seq<Seq<char>>)
    requires
        parse_lines(pref) is Err,
    ensures
        parse_lines(pref + rest) == parse_lines(pref),
    decreases rest.len(),
{
    if rest.len() == 0 {
        assert(pref + rest =~= pref);
    } else {
        lemma_parse_lines_err(pref, rest.drop_last());
        assert((pref + rest).drop_last() =~= pref + rest.drop_last());
        assert((pref + rest).len() > 0);
    }
}

/// The lines of `s` from position `pos` on, split on `'\n'`; a final line
/// without a newline still counts, an empty tail yields no line.
pub open spec fn split_lines_from(s: Seq<char>, pos: int) -> Seq<Seq<char>>
    decreases s.len() - pos,
        when 0 <= pos
        via split_lines_from_decreases
{
    if pos >= s.len() {
        Seq::empty()
    } else {
        match first_match_from(s, seq!['\n'], pos) {
            Some(j) => seq![s.subrange(pos, j)] + split_lines_from(s, j + 1),
            None => seq![s.subrange(pos, s.len() as int)],
        }
    }
}

#[via_fn]
proof fn split_lines_from_decreases(s: Seq<char>, pos: int) {
    if pos < s.len() {
        lemma_first_match_from(s, seq!['\n'], pos);
    }
}

/// The lines of `s`, split on `'\n'`.
pub open spec fn split_lines(s: Seq<char>) -> Seq<Seq<char>> {
    split_lines_from(s, 0)
}

/// The table that the text of a locale file denotes, or the position of its
/// first malformed line.
pub open spec fn parse_result(s: Seq<char>) -> Result<Seq<(Seq<char>, Seq<char>)>, int> {
    parse_lines(split_lines(s))
}

/// One key/value entry of a translation table.
#[derive(Debug, PartialEq, Eq)]
pub struct TranslationEntry {
    pub key: Vec<char>,
    pub value: Vec<char>,
}

/// What a load or a comparison can report.
#[derive(Debug, PartialEq, Eq)]
pub enum TranslationFileError {
    /// `key` exists in the other table but not in the table named by
    /// `missing_in`.
    MissingKey { key: Vec<char>, missing_in: Vec<char> },
    /// The key holds an empty value.
    EmptyValue(Vec<char>),
    /// The line at this position (counted from zero) is not `key=value`.
    ParseError { line: usize },
}

/// A structured finding, free of its textual rendering.
pub enum Diagnostic {
    MissingKey { key: Seq<char>, missing_in: Seq<char> },
    EmptyValue { key: Seq<char> },
    ParseError { line: int },
}

impl View for TranslationFileError {
    type V = Diagnostic;

    open spec fn view(&self) -> Diagnostic {
        match self {
            TranslationFileError::MissingKey { key, missing_in } => Diagnostic::MissingKey {
                key: key@,
                missing_in: missing_in@,
            },
            TranslationFileError::EmptyValue(key) => Diagnostic::EmptyValue { key: key@ },
            TranslationFileError::ParseError { line } => Diagnostic::ParseError {
                line: *line as int,
            },
        }
    }
}

/// The mathematical value of a list of findings.
pub open spec fn diags_view(ds: Seq<TranslationFileError>) -> Seq<Diagnostic> {
    ds.map_values(|d: TranslationFileError| d@)
}

/// The mathematical value of a list of entries.
pub open spec fn entries_view(es: Seq<TranslationEntry>) -> Seq<(Seq<char>, Seq<char>)> {
    es.map_values(|e: TranslationEntry| (e.key@, e.value@))
}

/// A translation table: the locale file's path, for naming it in findings,
/// and its entries in file order.
#[derive(Debug)]
pub struct TranslationFile {
    pub path: Vec<char>,
    pub entries: Vec<TranslationEntry>,
}

/// True exactly when some entry has key `k`.
pub fn entries_contain(entries: &Vec<TranslationEntry>, k: &[char]) -> (r: bool)
    ensures
        r == has_key(entries_view(entries@), k@),
{
    let mut i: usize = 0;
    while i < entries.len()
        invariant
            i <= entries@.len(),
            forall|m: int| 0 <= m < i ==> entries_view(entries@)[m].0 != k@,
        decreases entries@.len() - i,
    {
        if chars_eq(entries[i].key.as_slice(), k) {
            proof {
                assert(entries_view(entries@)[i as int].0 == k@);
            }
            return true;
        }
        i = i + 1;
    }
    false
}

/// Classifies one line as `classify_line` does: `Ok(None)` for a blank line,
/// `Ok(Some(entry))` for a well-formed one, `Err(())` for a malformed one.
fn classify_line_exec(line: &[char]) -> (r: Result<Option<TranslationEntry>, ()>)
    ensures
        match r {
            Ok(e) => match e {
                None => classify_line(line@) is Blank,
                Some(entry) => classify_line(line@) == (LineKind::Entry {
                    key: entry.key@,
                    value: entry.value@,
                }) && entry.key@.len() > 0,
            },
            Err(_) => classify_line(line@) is Malformed,
        },
{
    let t = trim_slice(line);
    if t.len() == 0 {
        return Ok(None);
    }
    let mut eq_pat: Vec<char> = Vec::new();
    eq_pat.push('=');
    proof {
        assert(eq_pat@ =~= seq!['=']);
    }
    let n = line.len();
    match crate::fenced::find_from(line, eq_pat.as_slice(), 0) {
        Some(i) => {
            let key = trim_slice(slice_subrange(line, 0, i));
            let value = trim_slice(slice_subrange(line, i + 1, n));
            if key.len() == 0 {
                Err(())
            } else {
                Ok(Some(TranslationEntry { key, value }))
            }
        },
        None => Err(()),
    }
}

impl TranslationFile {
    /// The table's entries as mathematical key/value pairs, in file order.
    pub open spec fn entries_model(self) -> Seq<(Seq<char>, Seq<char>)> {
        entries_view(self.entries@)
    }

    /// Keys are unique and non-empty.
    pub open spec fn wf(self) -> bool {
        &&& unique_keys(self.entries_model())
        &&& forall|i: int|
            0 <= i < self.entries_model().len() ==> (#[trigger] self.entries_model()[i]).0.len()
                > 0
    }

    /// Loads a table from the text of the locale file at `path`. Fails with
    /// the position of the first malformed line, and succeeds exactly on the
    /// texts whose every line conforms to the line grammar.
    pub fn from_text(path: Vec<char>, text: &[char]) -> (r: Result<
        TranslationFile,
        TranslationFileError,
    >)
        ensures
            match r {
                Ok(t) => parse_result(text@) == Ok::<_, int>(t.entries_model()) && t.path@ == path@
                    && t.wf(),
                Err(e) => parse_result(text@) is Err && (e matches TranslationFileError::ParseError {
                    line,
                } && parse_result(text@) == Err::<Seq<(Seq<char>, Seq<char>)>, int>(line as int)),
            },
    {
        let ghost all_lines = split_lines(text@);
        let ghost processed = Seq::<Seq<char>>::empty();
        let mut entries: Vec<TranslationEntry> = Vec::new();
        let mut pos: usize = 0;
        let mut line_idx: usize = 0;
        let mut nl_pat: Vec<char> = Vec::new();
        nl_pat.push('\n');
        proof {
            assert(nl_pat@ =~= seq!['\n']);
            assert(processed + split_lines_from(text@, 0) =~= split_lines_from(text@, 0));
            assert(entries_view(entries@) =~= Seq::<(Seq<char>, Seq<char>)>::empty());
        }
        let ghost mut processed = processed;
        while pos < text.len()
            invariant
                pos <= text@.len(),
                line_idx == processed.len(),
                line_idx <= pos,
                nl_pat@ == seq!['\n'],
                all_lines == split_lines(text@),
                all_lines == processed + split_lines_from(text@, pos as int),
                parse_lines(processed) == Ok::<_, int>(entries_view(entries@)),
                unique_keys(entries_view(entries@)),
                forall|i: int|
                    0 <= i < entries_view(entries@).len() ==> (#[trigger] entries_view(
                        entries@,
                    )[i]).0.len() > 0,
            decreases text@.len() - pos,
        {
            let line_end: usize;
            let next_pos: usize;
            match crate::fenced::find_from(text, nl_pat.as_slice(), pos) {
                Some(j) => {
                    line_end = j;
                    next_pos = j + 1;
                },
                None => {
                    line_end = text.len();
                    next_pos = text.len();
                },
            }
            let line = slice_subrange(text, pos, line_end);
            proof {
                assert(split_lines_from(text@, pos as int) == seq![line@] + split_lines_from(
                    text@,
                    next_pos as int,
                ));
                assert(processed + split_lines_from(text@, pos as int) =~= (processed.push(line@))
                    + split_lines_from(text@, next_pos as int));
            }
            let ghost before = entries_view(entries@);
            match classify_line_exec(line) {
                Err(_) => {
                    proof {
                        assert(processed.push(line@).drop_last() =~= processed);
                        assert(parse_lines(processed.push(line@)) == Err::<
                            Seq<(Seq<char>, Seq<char>)>,
                            int,
                        >(line_idx as int));
                        lemma_parse_lines_err(
                            processed.push(line@),
                            split_lines_from(text@, next_pos as int),
                        );
                    }
                    return Err(TranslationFileError::ParseError { line: line_idx });
                },
                Ok(None) => {
                    proof {
                        assert(processed.push(line@).drop_last() =~= processed);
                        assert(parse_lines(processed.push(line@)) == Ok::<_, int>(before));
                    }
                },
                Ok(Some(entry)) => {
                    let dup = entries_contain(&entries, entry.key.as_slice());
                    let ghost k = entry.key@;
                    let ghost v = entry.value@;
                    if !dup {
                        entries.push(entry);
                        proof {
                            assert(entries_view(entries@) =~= before.push((k, v)));
                            assert forall|m: int, n: int|
                                0 <= m < n < entries_view(entries@).len() implies entries_view(
                                entries@,
                            )[m].0 != entries_view(entries@)[n].0 by {
                                if n < before.len() {
                                    assert(before[m].0 != before[n].0);
                                } else {
                                    assert(entries_view(entries@)[n].0 == k);
                                    assert(before[m].0 != k);
                                }
                            }
                        }
                    }
                    proof {
                        assert(entries_view(entries@) == insert_entry(before, k, v));
                        assert(processed.push(line@).drop_last() =~= processed);
                        assert(parse_lines(processed.push(line@)) == Ok::<_, int>(
                            entries_view(entries@),
                        ));
                    }
                },
            }
            proof {
                processed = processed.push(line@);
            }
            pos = next_pos;
            line_idx = line_idx + 1;
        }
        proof {
            assert(split_lines_from(text@, pos as int) =~= Seq::<Seq<char>>::empty());
            assert(processed + split_lines_from(text@, pos as int) =~= processed);
        }
        let t = TranslationFile { path, entries };
        Ok(t)
    }

    /// The findings this table owes when held against `other`: one
    /// missing-key finding for every key of `other` that this table lacks,
    /// in `other`'s order, then one empty-value finding for every entry of
    /// this table whose value is empty, in this table's order.
    pub fn diags_against(&self, other: &TranslationFile) -> (r: Vec<TranslationFileError>)
        ensures
            diags_view(r@) == table_diags(
                self.entries_model(),
                self.path@,
                other.entries_model(),
            ),
    {
        let ghost sm = self.entries_model();
        let ghost om = other.entries_model();
        let mut r: Vec<TranslationFileError> = Vec::new();
        let mut i: usize = 0;
        proof {
            assert(diags_view(r@) =~= missing_key_diags(sm, self.path@, om.take(0)));
        }
        while i < other.entries.len()
            invariant
                i <= other.entries@.len(),
                sm == self.entries_model(),
                om == other.entries_model(),
                diags_view(r@) == missing_key_diags(sm, self.path@, om.take(i as int)),
            decreases other.entries@.len() - i,
        {
            let e = &other.entries[i];
            let ghost before = r@;
            proof {
                assert(om.take(i + 1).drop_last() =~= om.take(i as int));
                assert(om.take(i + 1).last() == om[i as int]);
                assert(om[i as int].0 == e.key@);
            }
            if !entries_contain(&self.entries, e.key.as_slice()) {
                let d = TranslationFileError::MissingKey {
                    key: slice_to_vec(e.key.as_slice()),
                    missing_in: slice_to_vec(self.path.as_slice()),
                };
                proof {
                    assert(d@ == Diagnostic::MissingKey { key: e.key@, missing_in: self.path@ });
                }
                r.push(d);
                proof {
                    assert(diags_view(r@) =~= diags_view(before).push(
                        Diagnostic::MissingKey { key: om[i as int].0, missing_in: self.path@ },
                    ));
                    assert(diags_view(r@) =~= missing_key_diags(sm, self.path@, om.take(i + 1)));
                }
            } else {
                proof {
                    assert(missing_key_diags(sm, self.path@, om.take(i + 1)) =~= missing_key_diags(
                        sm,
                        self.path@,
                        om.take(i as int),
                    ));
                }
            }
            i = i + 1;
        }
        proof {
            assert(om.take(om.len() as int) =~= om);
        }
        let mut j: usize = 0;
        proof {
            assert(diags_view(r@) =~= missing_key_diags(sm, self.path@, om) + empty_value_diags(
                sm.take(0),
            ));
        }
        while j < self.entries.len()
            invariant
                j <= self.entries@.len(),
                sm == self.entries_model(),
                om == other.entries_model(),
                diags_view(r@) == missing_key_diags(sm, self.path@, om) + empty_value_diags(
                    sm.take(j as int),
                ),
            decreases self.entries@.len() - j,
        {
            let e = &self.entries[j];
            let ghost before = r@;
            proof {
                assert(sm.take(j + 1).drop_last() =~= sm.take(j as int));
                assert(sm.take(j + 1).last() == sm[j as int]);
                assert(sm[j as int] == (e.key@, e.value@));
            }
            if e.value.len() == 0 {
                let d = TranslationFileError::EmptyValue(slice_to_vec(e.key.as_slice()));
                proof {
                    assert(d@ == Diagnostic::EmptyValue { key: e.key@ });
                }
                r.push(d);
                proof {
                    assert(diags_view(r@) =~= diags_view(before).push(
                        Diagnostic::EmptyValue { key: sm[j as int].0 },
                    ));
                    assert(diags_view(r@) =~= missing_key_diags(sm, self.path@, om)
                        + empty_value_diags(sm.take(j + 1)));
                }
            } else {
                proof {
                    assert(empty_value_diags(sm.take(j + 1)) =~= empty_value_diags(
                        sm.take(j as int),
                    ));
                }
            }
            j = j + 1;
        }
        proof {
            assert(sm.take(sm.len() as int) =~= sm);
        }
        r
    }

    /// Checks structural compatibility: succeeds exactly when neither table
    /// owes a finding against the other, and otherwise hands back both
    /// tables' finding lists, this table's first, so the caller can attribute
    /// each finding to its owning file.
    pub fn is_compatible_with(&self, other: &TranslationFile) -> (r: Result<
        (),
        (Vec<TranslationFileError>, Vec<TranslationFileError>),
    >)
        ensures
            ({
                let p = compatibility_pair(
                    self.entries_model(),
                    self.path@,
                    other.entries_model(),
                    other.path@,
                );
                match r {
                    Ok(_) => p.0.len() == 0 && p.1.len() == 0,
                    Err(lists) => diags_view(lists.0@) == p.0 && diags_view(lists.1@) == p.1 && !(
                    p.0.len() == 0 && p.1.len() == 0),
                }
            }),
    {
        let mine = self.diags_against(other);
        let theirs = other.diags_against(self);
        if mine.len() == 0 && theirs.len() == 0 {
            Ok(())
        } else {
            Err((mine, theirs))
        }
    }

    /// The used keys that this table does not define, in the order observed,
    /// duplicates kept.
    pub fn find_invalid_usages(&self, used: &Vec<Vec<char>>) -> (r: Vec<Vec<char>>)
        ensures
            keys_view(r@) == invalid_keys(self.entries_model(), keys_view(used@)),
    {
        let ghost sm = self.entries_model();
        let ghost uk = keys_view(used@);
        let mut r: Vec<Vec<char>> = Vec::new();
        let mut i: usize = 0;
        proof {
            assert(keys_view(r@) =~= invalid_keys(sm, uk.take(0)));
        }
        while i < used.len()
            invariant
                i <= used@.len(),
                sm == self.entries_model(),
                uk == keys_view(used@),
                keys_view(r@) == invalid_keys(sm, uk.take(i as int)),
            decreases used@.len() - i,
        {
            let k = &used[i];
            let ghost before = r@;
            proof {
                assert(uk.take(i + 1).drop_last() =~= uk.take(i as int));
                assert(uk.take(i + 1).last() == uk[i as int]);
                assert(uk[i as int] == k@);
            }
            if !entries_contain(&self.entries, k.as_slice()) {
                r.push(slice_to_vec(k.as_slice()));
                proof {
                    assert(keys_view(r@) =~= keys_view(before).push(uk[i as int]));
                    assert(keys_view(r@) =~= invalid_keys(sm, uk.take(i + 1)));
                }
            } else {
                proof {
                    assert(invalid_keys(sm, uk.take(i + 1)) =~= invalid_keys(sm, uk.take(i as int)));
                }
            }
            i = i + 1;
        }
        proof {
            assert(uk.take(uk.len() as int) =~= uk);
        }
        r
    }

    /// The entries of this table whose keys no scanned file used and the
    /// ignore list does not name, in table order.
    pub fn find_unused_keys(&self, used: &Vec<Vec<char>>, ignored: &Vec<Vec<char>>) -> (r: Vec<
        TranslationEntry,
    >)
        ensures
            entries_view(r@) == unused_entries(
                self.entries_model(),
                keys_view(used@),
                keys_view(ignored@),
            ),
    {
        let ghost sm = self.entries_model();
        let ghost uk = keys_view(used@);
        let ghost ik = keys_view(ignored@);
        let mut r: Vec<TranslationEntry> = Vec::new();
        let mut i: usize = 0;
        proof {
            assert(entries_view(r@) =~= unused_entries(sm.take(0), uk, ik));
        }
        while i < self.entries.len()
            invariant
                i <= self.entries@.len(),
                sm == self.entries_model(),
                uk == keys_view(used@),
                ik == keys_view(ignored@),
                entries_view(r@) == unused_entries(sm.take(i as int), uk, ik),
            decreases self.entries@.len() - i,
        {
            let e = &self.entries[i];
            let ghost before = r@;
            proof {
                assert(sm.take(i + 1).drop_last() =~= sm.take(i as int));
                assert(sm.take(i + 1).last() == sm[i as int]);
                assert(sm[i as int] == (e.key@, e.value@));
            }
            if !keys_contain(used, e.key.as_slice()) && !keys_contain(ignored, e.key.as_slice()) {
                r.push(
                    TranslationEntry {
                        key: slice_to_vec(e.key.as_slice()),
                        value: slice_to_vec(e.value.as_slice()),
                    },
                );
                proof {
                    assert(entries_view(r@) =~= entries_view(before).push(sm[i as int]));
                    assert(entries_view(r@) =~= unused_entries(sm.take(i + 1), uk, ik));
                }
            } else {
                proof {
                    assert(unused_entries(sm.take(i + 1), uk, ik) =~= unused_entries(
                        sm.take(i as int),
                        uk,
                        ik,
                    ));
                }
            }
            i = i + 1;
        }
        proof {
            assert(sm.take(sm.len() as int) =~= sm);
        }
        r
    }
}

/// The missing-key findings that `mine` owes against `others`: one for each
/// entry of `others` whose key `mine` lacks, in `others`'s order.
pub open spec fn missing_key_diags(
    mine: Seq<(Seq<char>, Seq<char>)>,
    my_path: Seq<char>,
    others: Seq<(Seq<char>, Seq<char>)>,
) -> Seq<Diagnostic>
    decreases others.len(),
{
    if others.len() == 0 {
        Seq::empty()
    } else {
        missing_key_diags(mine, my_path, others.drop_last()) + (if !has_key(
            mine,
            others.last().0,
        ) {
            seq![Diagnostic::MissingKey { key: others.last().0, missing_in: my_path }]
        } else {
            Seq::empty()
        })
    }
}

/// The empty-value findings of a table: one for each entry whose value is
/// empty, in entry order.
pub open spec fn empty_value_diags(mine: Seq<(Seq<char>, Seq<char>)>) -> Seq<Diagnostic>
    decreases mine.len(),
{
    if mine.len() == 0 {
        Seq::empty()
    } else {
        empty_value_diags(mine.drop_last()) + (if mine.last().1.len() == 0 {
            seq![Diagnostic::EmptyValue { key: mine.last().0 }]
        } else {
            Seq::empty()
        })
    }
}

/// Everything a table owes when held against `others`: its missing-key
/// findings, then its empty-value findings.
pub open spec fn table_diags(
    mine: Seq<(Seq<char>, Seq<char>)>,
    my_path: Seq<char>,
    others: Seq<(Seq<char>, Seq<char>)>,
) -> Seq<Diagnostic> {
    missing_key_diags(mine, my_path, others) + empty_value_diags(mine)
}

/// Both finding lists of a comparison: what the first table owes against the
/// second, and what the second owes against the first.
pub open spec fn compatibility_pair(
    a: Seq<(Seq<char>, Seq<char>)>,
    a_path: Seq<char>,
    b: Seq<(Seq<char>, Seq<char>)>,
    b_path: Seq<char>,
) -> (Seq<Diagnostic>, Seq<Diagnostic>) {
    (table_diags(a, a_path, b), table_diags(b, b_path, a))
}

/// The used keys that the table does not define, in the order observed,
/// duplicates kept.
pub open spec fn invalid_keys(
    es: Seq<(Seq<char>, Seq<char>)>,
    used: Seq<Seq<char>>,
) -> Seq<Seq<char>>
    decreases used.len(),
{
    if used.len() == 0 {
        Seq::empty()
    } else {
        invalid_keys(es, used.drop_last()) + (if !has_key(es, used.last()) {
            seq![used.last()]
        } else {
            Seq::empty()
        })
    }
}

/// The entries whose keys are neither used nor ignored, in table order.
pub open spec fn unused_entries(
    es: Seq<(Seq<char>, Seq<char>)>,
    used: Seq<Seq<char>>,
    ignored: Seq<Seq<char>>,
) -> Seq<(Seq<char>, Seq<char>)>
    decreases es.len(),
{
    if es.len() == 0 {
        Seq::empty()
    } else {
        unused_entries(es.drop_last(), used, ignored) + (if !used.contains(es.last().0)
            && !ignored.contains(es.last().0) {
            seq![es.last()]
        } else {
            Seq::empty()
        })
    }
}

/// Comparing two tables is symmetric: swapping the arguments yields the same
/// two finding lists with their roles exchanged.
pub proof fn lemma_compatibility_symmetry(
    a: Seq<(Seq<char>, Seq<char>)>,
    a_path: Seq<char>,
    b: Seq<(Seq<char>, Seq<char>)>,
    b_path: Seq<char>,
)
    ensures
        compatibility_pair(a, a_path, b, b_path).0 == compatibility_pair(b, b_path, a, a_path).1,
        compatibility_pair(a, a_path, b, b_path).1 == compatibility_pair(b, b_path, a, a_path).0,
{
}

/// A table whose values are all non-empty owes no empty-value finding.
proof fn lemma_empty_value_diags_none(mine: Seq<(Seq<char>, Seq<char>)>)
    requires
        forall|i: int| 0 <= i < mine.len() ==> (#[trigger] mine[i]).1.len() > 0,
    ensures
        empty_value_diags(mine) == Seq::<Diagnostic>::empty(),
    decreases mine.len(),
{
    if mine.len() > 0 {
        assert forall|i: int|
            0 <= i < mine.drop_last().len() implies (#[trigger] mine.drop_last()[i]).1.len()
            > 0 by {
            assert(mine.drop_last()[i] == mine[i]);
        }
        lemma_empty_value_diags_none(mine.drop_last());
        assert(mine.last().1.len() > 0);
        assert(empty_value_diags(mine) =~= Seq::<Diagnostic>::empty());
    }
}

/// A table that has every key of `others` owes no missing-key finding.
proof fn lemma_missing_key_diags_none(
    mine: Seq<(Seq<char>, Seq<char>)>,
    my_path: Seq<char>,
    others: Seq<(Seq<char>, Seq<char>)>,
)
    requires
        forall|i: int| 0 <= i < others.len() ==> has_key(mine, (#[trigger] others[i]).0),
    ensures
        missing_key_diags(mine, my_path, others) == Seq::<Diagnostic>::empty(),
    decreases others.len(),
{
    if others.len() > 0 {
        assert forall|i: int|
            0 <= i < others.drop_last().len() implies has_key(
            mine,
            (#[trigger] others.drop_last()[i]).0,
        ) by {
            assert(others.drop_last()[i] == others[i]);
        }
        lemma_missing_key_diags_none(mine, my_path, others.drop_last());
        assert(has_key(mine, others.last().0));
        assert(missing_key_diags(mine, my_path, others) =~= Seq::<Diagnostic>::empty());
    }
}

/// When `mine` lacks exactly the one key `k` of `others`, the missing-key
/// findings are that one finding alone.
proof fn lemma_missing_key_diags_single(
    mine: Seq<(Seq<char>, Seq<char>)>,
    my_path: Seq<char>,
    others: Seq<(Seq<char>, Seq<char>)>,
    k: Seq<char>,
)
    requires
        unique_keys(others),
        has_key(others, k),
        !has_key(mine, k),
        forall|i: int|
            0 <= i < others.len() ==> (#[trigger] others[i]).0 == k || has_key(mine, others[i].0),
    ensures
        missing_key_diags(mine, my_path, others) == seq![
            Diagnostic::MissingKey { key: k, missing_in: my_path },
        ],
    decreases others.len(),
{
    let pre = others.drop_last();
    let last = others.last();
    if last.0 == k {
        assert forall|i: int| 0 <= i < pre.len() implies has_key(mine, (#[trigger] pre[i]).0) by {
            assert(pre[i] == others[i]);
            assert(others[i].0 != others[others.len() - 1].0);
        }
        lemma_missing_key_diags_none(mine, my_path, pre);
        assert(missing_key_diags(mine, my_path, others) =~= seq![
            Diagnostic::MissingKey { key: k, missing_in: my_path },
        ]);
    } else {
        assert(has_key(pre, k)) by {
            let w = choose|i: int| 0 <= i < others.len() && others[i].0 == k;
            assert(pre[w] == others[w]);
        }
        assert(unique_keys(pre)) by {
            assert forall|m: int, n: int|
                0 <= m < n < pre.len() implies (#[trigger] pre[m]).0 != (#[trigger] pre[n]).0 by {
                assert(pre[m] == others[m]);
                assert(pre[n] == others[n]);
            }
        }
        assert forall|i: int|
            0 <= i < pre.len() implies (#[trigger] pre[i]).0 == k || has_key(mine, pre[i].0) by {
            assert(pre[i] == others[i]);
        }
        lemma_missing_key_diags_single(mine, my_path, pre, k);
        assert(has_key(mine, last.0));
        assert(missing_key_diags(mine, my_path, others) =~= seq![
            Diagnostic::MissingKey { key: k, missing_in: my_path },
        ]);
    }
}

/// When key `k` lives in `b` but not in `a` and neither table has any other
/// issue, comparing reports exactly the one missing-key finding for `k` in
/// `a`'s list, and nothing at all in `b`'s list.
pub proof fn lemma_missing_key_exact(
    a: Seq<(Seq<char>, Seq<char>)>,
    a_path: Seq<char>,
    b: Seq<(Seq<char>, Seq<char>)>,
    b_path: Seq<char>,
    k: Seq<char>,
)
    requires
        unique_keys(b),
        has_key(b, k),
        !has_key(a, k),
        forall|i: int| 0 <= i < b.len() ==> (#[trigger] b[i]).0 == k || has_key(a, b[i].0),
        forall|i: int| 0 <= i < a.len() ==> has_key(b, (#[trigger] a[i]).0),
        forall|i: int| 0 <= i < a.len() ==> (#[trigger] a[i]).1.len() > 0,
        forall|i: int| 0 <= i < b.len() ==> (#[trigger] b[i]).1.len() > 0,
    ensures
        table_diags(a, a_path, b) == seq![Diagnostic::MissingKey { key: k, missing_in: a_path }],
        table_diags(b, b_path, a) == Seq::<Diagnostic>::empty(),
{
    lemma_empty_value_diags_none(a);
    lemma_empty_value_diags_none(b);
    lemma_missing_key_diags_none(b, b_path, a);
    lemma_missing_key_diags_single(a, a_path, b, k);
    assert(table_diags(a, a_path, b) =~= seq![
        Diagnostic::MissingKey { key: k, missing_in: a_path },
    ]);
    assert(table_diags(b, b_path, a) =~= Seq::<Diagnostic>::empty());
}

/// A key with an empty value is always reported: whatever the other table
/// holds, `a`'s findings against it carry the empty-value finding for `k`.
pub proof fn lemma_empty_value_reported(
    a: Seq<(Seq<char>, Seq<char>)>,
    a_path: Seq<char>,
    b: Seq<(Seq<char>, Seq<char>)>,
    w: int,
)
    requires
        0 <= w < a.len(),
        a[w].1.len() == 0,
    ensures
        table_diags(a, a_path, b).contains(Diagnostic::EmptyValue { key: a[w].0 }),
{
    lemma_empty_value_diags_contains(a, w);
    let d = Diagnostic::EmptyValue { key: a[w].0 };
    let ev = empty_value_diags(a);
    let mk = missing_key_diags(a, a_path, b);
    let j = choose|j: int| 0 <= j < ev.len() && ev[j] == d;
    assert(table_diags(a, a_path, b)[mk.len() + j] == d);
}

/// The empty-value findings carry one for each entry whose value is empty.
proof fn lemma_empty_value_diags_contains(mine: Seq<(Seq<char>, Seq<char>)>, w: int)
    requires
        0 <= w < mine.len(),
        mine[w].1.len() == 0,
    ensures
        empty_value_diags(mine).contains(Diagnostic::EmptyValue { key: mine[w].0 }),
    decreases mine.len(),
{
    let d = Diagnostic::EmptyValue { key: mine[w].0 };
    let pre = empty_value_diags(mine.drop_last());
    if w == mine.len() - 1 {
        assert(empty_value_diags(mine)[pre.len() as int] == d);
    } else {
        assert(mine.drop_last()[w] == mine[w]);
        lemma_empty_value_diags_contains(mine.drop_last(), w);
        let j = choose|j: int| 0 <= j < pre.len() && pre[j] == d;
        assert(empty_value_diags(mine)[j] == d);
    }
}

} // verus!
