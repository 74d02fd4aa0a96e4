//! The usage scanner: finds every translation key that a text buffer
//! mentions, by recognising three call-site shapes through fenced span
//! extraction.
//!
//! Each usage kind is a family of marker pairs chosen tightly enough that the
//! captured span is the bare key literal, quotes excluded:
//! - the component-attribute form, `id="key"`;
//! - the function-call form, `formatMessage('key')` or `formatMessage("key")`;
//! - a catch-all form for keys handed over as an `id:` property,
//!   `id: 'key'` or `id: "key"`.
//!
//! A kind with several marker pairs concatenates the captures of each pair,
//! in the order the pairs are listed; duplicates are not collapsed here, a
//! caller folds them into the used-key set. Reading the scanned file is the
//! caller's business: the scanner works on the file's characters.

use vstd::prelude::*;
use vstd::slice::slice_to_vec;
use crate::fenced::{captures, extract_all, usages_view};
use crate::text::{chars_eq, str_to_chars};

verus! {

/// The usages of the component-attribute form, `id="key"`.
pub open spec fn formatted_message_usages(text: Seq<char>) -> Seq<(int, Seq<char>)> {
    captures(text, "id=\""@, "\""@)
}

/// The usages of the function-call form, `formatMessage('key')` or
/// `formatMessage("key")`: the captures of the single-quoted shape, then
/// those of the double-quoted shape.
pub open spec fn format_message_usages(text: Seq<char>) -> Seq<(int, Seq<char>)> {
    captures(text, "formatMessage('"@, "')"@) + captures(text, "formatMessage(\""@, "\")"@)
}

/// The usages of the catch-all form, `id: 'key'` or `id: "key"`: the captures
/// of the single-quoted shape, then those of the double-quoted shape.
pub open spec fn misc_usages(text: Seq<char>) -> Seq<(int, Seq<char>)> {
    captures(text, "id: '"@, "'"@) + captures(text, "id: \""@, "\""@)
}

/// Scans `text` for usages of the component-attribute form.
pub fn find_formatted_message_usages(text: &[char]) -> (r: Vec<(usize, Vec<char>)>)
    ensures
        usages_view(r@) == formatted_message_usages(text@),
{
    let start = str_to_chars("id=\"");
    let end = str_to_chars("\"");
    proof {
        reveal_strlit("id=\"");
        reveal_strlit("\"");
    }
    extract_all(text, start.as_slice(), end.as_slice())
}

/// Scans `text` for usages of the function-call form, in either quoting
/// style.
pub fn find_format_message_usages(text: &[char]) -> (r: Vec<(usize, Vec<char>)>)
    ensures
        usages_view(r@) == format_message_usages(text@),
{
    let s1 = str_to_chars("formatMessage('");
    let e1 = str_to_chars("')");
    let s2 = str_to_chars("formatMessage(\"");
    let e2 = str_to_chars("\")");
    proof {
        reveal_strlit("formatMessage('");
        reveal_strlit("')");
        reveal_strlit("formatMessage(\"");
        reveal_strlit("\")");
    }
    let mut r = extract_all(text, s1.as_slice(), e1.as_slice());
    let mut r2 = extract_all(text, s2.as_slice(), e2.as_slice());
    proof {
        assert(usages_view(r@ + r2@) =~= usages_view(r@) + usages_view(r2@));
    }
    r.append(&mut r2);
    r
}

/// Scans `text` for usages of the catch-all form, in either quoting style.
pub fn find_misc_usages(text: &[char]) -> (r: Vec<(usize, Vec<char>)>)
    ensures
        usages_view(r@) == misc_usages(text@),
{
    let s1 = str_to_chars("id: '");
    let e1 = str_to_chars("'");
    let s2 = str_to_chars("id: \"");
    let e2 = str_to_chars("\"");
    proof {
        reveal_strlit("id: '");
        reveal_strlit("'");
        reveal_strlit("id: \"");
        reveal_strlit("\"");
    }
    let mut r = extract_all(text, s1.as_slice(), e1.as_slice());
    let mut r2 = extract_all(text, s2.as_slice(), e2.as_slice());
    proof {
        assert(usages_view(r@ + r2@) =~= usages_view(r@) + usages_view(r2@));
    }
    r.append(&mut r2);
    r
}

/// The mathematical value of a list of keys.
pub open spec fn keys_view(keys: Seq<Vec<char>>) -> Seq<Seq<char>> {
    keys.map_values(|k: Vec<char>| k@)
}

/// The set of keys that a sequence of usages names.
pub open spec fn usage_key_set(us: Seq<(int, Seq<char>)>) -> Set<Seq<char>> {
    Set::new(|x: Seq<char>| exists|j: int| 0 <= j < us.len() && us[j].1 == x)
}

/// No key occurs twice.
pub open spec fn distinct_keys(keys: Seq<Seq<char>>) -> bool {
    forall|i: int, j: int| 0 <= i < j < keys.len() ==> keys[i] != keys[j]
}

/// True exactly when `keys` holds `k`.
pub fn keys_contain(keys: &Vec<Vec<char>>, k: &[char]) -> (r: bool)
    ensures
        r == keys_view(keys@).contains(k@),
{
    let mut i: usize = 0;
    while i < keys.len()
        invariant
            i <= keys@.len(),
            forall|m: int| 0 <= m < i ==> keys_view(keys@)[m] != k@,
        decreases keys@.len() - i,
    {
        if chars_eq(keys[i].as_slice(), k) {
            proof {
                assert(keys_view(keys@)[i as int] == k@);
            }
            return true;
        }
        i = i + 1;
    }
    false
}

/// Folds the keys of one scan's usages into the accumulated used-key set:
/// every key of `usages` is afterwards in `used`, duplicates collapse, and
/// no key already present is lost or doubled.
pub fn add_usage_keys(used: &mut Vec<Vec<char>>, usages: &Vec<(usize, Vec<char>)>)
    requires
        distinct_keys(keys_view(old(used)@)),
    ensures
        distinct_keys(keys_view(final(used)@)),
        keys_view(final(used)@).to_set() == keys_view(old(used)@).to_set().union(
            usage_key_set(usages_view(usages@)),
        ),
{
    let mut i: usize = 0;
    while i < usages.len()
        invariant
            i <= usages@.len(),
            distinct_keys(keys_view(used@)),
            forall|j: int| 0 <= j < i ==> keys_view(used@).contains(#[trigger] usages@[j].1@),
            forall|x: Seq<char>|
                #[trigger] keys_view(used@).contains(x) ==> keys_view(old(used)@).contains(x)
                    || (exists|j: int| 0 <= j < i && usages@[j].1@ == x),
            forall|x: Seq<char>|
                #[trigger] keys_view(old(used)@).contains(x) ==> keys_view(used@).contains(x),
        decreases usages@.len() - i,
    {
        let ghost before = used@;
        let key = &usages[i].1;
        if !keys_contain(used, key.as_slice()) {
            used.push(slice_to_vec(key.as_slice()));
            proof {
                assert(keys_view(used@) =~= keys_view(before).push(key@));
                assert forall|x: Seq<char>| #[trigger]
                    keys_view(used@).contains(x) implies keys_view(before).contains(x)
                    || x == key@ by {
                    let m = choose|m: int|
                        0 <= m < keys_view(used@).len() && keys_view(used@)[m] == x;
                    if m < keys_view(before).len() {
                        assert(keys_view(before)[m] == x);
                    }
                }
                assert forall|x: Seq<char>| #[trigger]
                    keys_view(before).contains(x) implies keys_view(used@).contains(x) by {
                    let m = choose|m: int|
                        0 <= m < keys_view(before).len() && keys_view(before)[m] == x;
                    assert(keys_view(used@)[m] == x);
                }
                assert(keys_view(used@)[keys_view(before).len() as int] == key@);
                assert(keys_view(used@).contains(key@));
                assert forall|m: int, n: int|
                    0 <= m < n < keys_view(used@).len() implies keys_view(used@)[m] != keys_view(
                    used@,
                )[n] by {
                    if n < keys_view(before).len() {
                        assert(keys_view(before)[m] != keys_view(before)[n]);
                    } else {
                        assert(keys_view(used@)[n] == key@);
                        assert(keys_view(before)[m] != key@);
                    }
                }
            }
        }
        proof {
            assert(keys_view(used@).contains(usages@[i as int].1@));
        }
        i = i + 1;
    }
    proof {
        let uv = usages_view(usages@);
        assert forall|x: Seq<char>| #[trigger]
            usage_key_set(uv).contains(x) implies keys_view(used@).contains(x) by {
            let j = choose|j: int| 0 <= j < uv.len() && uv[j].1 == x;
            assert(usages@[j].1@ == x);
        }
        assert forall|x: Seq<char>| #[trigger]
            keys_view(used@).contains(x) implies keys_view(old(used)@).to_set().union(
            usage_key_set(uv),
        ).contains(x) by {
            if !keys_view(old(used)@).contains(x) {
                let j = choose|j: int| 0 <= j < usages@.len() && usages@[j].1@ == x;
                assert(uv[j].1 == x);
                assert(usage_key_set(uv).contains(x));
            }
        }
        assert(keys_view(used@).to_set() =~= keys_view(old(used)@).to_set().union(
            usage_key_set(uv),
        ));
    }
}

} // verus!
