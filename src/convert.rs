//! One adblock rule line to one hosts entry, or none.

use vstd::prelude::*;
use crate::text::{chars_of, cut_at, find_char, trim, trim_bounds};

verus! {

pub open spec fn is_alpha(c: char) -> bool {
    ('a' <= c <= 'z') || ('A' <= c <= 'Z')
}

pub open spec fn is_alnum(c: char) -> bool {
    is_alpha(c) || ('0' <= c <= '9')
}

pub open spec fn is_label_char(c: char) -> bool {
    is_alnum(c) || c == '-'
}

/// One or more labels joined by dots, where each label is non-empty, holds only
/// ASCII letters, digits and hyphens, and starts and ends with a letter or digit.
pub open spec fn is_label_run(p: Seq<char>) -> bool {
    &&& p.len() > 0
    &&& is_alnum(p[0])
    &&& is_alnum(p.last())
    &&& forall|i: int| 0 <= i < p.len() ==> is_label_char(#[trigger] p[i]) || p[i] == '.'
    &&& forall|i: int|
        0 <= i < p.len() && #[trigger] p[i] == '.' ==> 0 < i < p.len() - 1 && is_alnum(p[i - 1])
            && is_alnum(p[i + 1])
}

/// A top-level label: two or more ASCII letters.
pub open spec fn is_top_label(t: Seq<char>) -> bool {
    t.len() >= 2 && forall|i: int| 0 <= i < t.len() ==> is_alpha(#[trigger] t[i])
}

/// A domain name: a run of labels, a dot, and a top-level label.
pub open spec fn is_domain(d: Seq<char>) -> bool {
    exists|k: int|
        0 <= k < d.len() && #[trigger] d[k] == '.' && is_label_run(d.take(k)) && is_top_label(
            d.skip(k + 1),
        )
}

/// What a hosts entry puts before the domain.
pub open spec fn sink_prefix() -> Seq<char> {
    seq!['0', '.', '0', '.', '0', '.', '0', ' ']
}

/// A rule line with its comment cut off and its ends trimmed.
pub open spec fn rule_body(rule: Seq<char>) -> Seq<char> {
    trim(cut_at(rule, '#'))
}

/// The body starts with `||` and has a `^` after it.
pub open spec fn is_block_rule(t: Seq<char>) -> bool {
    t.len() >= 2 && t[0] == '|' && t[1] == '|' && t.skip(2).contains('^')
}

/// What stands between `||` and the first `^`, cut at a `$` that begins the options.
pub open spec fn candidate(t: Seq<char>) -> Seq<char> {
    cut_at(cut_at(t.skip(2), '^'), '$')
}

/// The hosts entry for one rule line, if the rule blocks a well-formed domain.
pub open spec fn converted(rule: Seq<char>) -> Option<Seq<char>> {
    let t = rule_body(rule);
    if is_block_rule(t) && is_domain(candidate(t)) {
        Some(sink_prefix() + candidate(t))
    } else {
        None
    }
}

/// The domain that a hosts entry names.
pub open spec fn entry_domain(e: Seq<char>) -> Seq<char> {
    e.skip(sink_prefix().len() as int)
}

/// Conversion never fails in any other way than giving no entry, and every
/// entry it gives is `0.0.0.0 ` followed by a well-formed domain.
pub proof fn lemma_entry_is_sink_line(rule: Seq<char>)
    ensures
        converted(rule) matches Some(e) ==> e.take(sink_prefix().len() as int) == sink_prefix()
            && is_domain(entry_domain(e)) && e == sink_prefix() + entry_domain(e),
{
    if let Some(e) = converted(rule) {
        let d = candidate(rule_body(rule));
        assert(e.take(sink_prefix().len() as int) =~= sink_prefix());
        assert(entry_domain(e) =~= d);
    }
}

/// Converting equal lines gives equal results: a line converts the same way
/// however often it is converted.
pub proof fn lemma_convert_repeatable(first: Seq<char>, second: Seq<char>)
    requires
        first == second,
    ensures
        converted(first) == converted(second),
{
}

fn is_alpha_char(c: char) -> (r: bool)
    ensures
        r == is_alpha(c),
{
    ('a' <= c && c <= 'z') || ('A' <= c && c <= 'Z')
}

fn is_alnum_char(c: char) -> (r: bool)
    ensures
        r == is_alnum(c),
{
    is_alpha_char(c) || ('0' <= c && c <= '9')
}

/// Whether `v[lo..hi]` is a run of labels.
fn is_label_run_at(v: &Vec<char>, lo: usize, hi: usize) -> (r: bool)
    requires
        lo <= hi <= v@.len(),
    ensures
        r == is_label_run(v@.subrange(lo as int, hi as int)),
{
    let ghost p = v@.subrange(lo as int, hi as int);
    if lo == hi || !is_alnum_char(v[lo]) || !is_alnum_char(v[hi - 1]) {
        return false;
    }
    let mut i = lo;
    while i < hi
        invariant
            lo <= i <= hi <= v@.len(),
            p == v@.subrange(lo as int, hi as int),
            lo < hi,
            is_alnum(v@[lo as int]),
            is_alnum(v@[hi - 1]),
            forall|j: int| 0 <= j < i - lo ==> is_label_char(#[trigger] p[j]) || p[j] == '.',
            forall|j: int|
                0 <= j < i - lo && #[trigger] p[j] == '.' ==> 0 < j < p.len() - 1 && is_alnum(
                    p[j - 1],
                ) && is_alnum(p[j + 1]),
        decreases hi - i,
    {
        let c = v[i];
        if c == '.' {
            if i == lo || i + 1 >= hi || !is_alnum_char(v[i - 1]) || !is_alnum_char(v[i + 1]) {
                assert(p[i - lo] == '.');
                return false;
            }
        } else if !is_alnum_char(c) && c != '-' {
            assert(!(is_label_char(p[i - lo]) || p[i - lo] == '.'));
            return false;
        }
        i += 1;
    }
    true
}

/// Whether `v[lo..hi]` is a top-level label.
fn is_top_label_at(v: &Vec<char>, lo: usize, hi: usize) -> (r: bool)
    requires
        lo <= hi <= v@.len(),
    ensures
        r == is_top_label(v@.subrange(lo as int, hi as int)),
{
    let ghost t = v@.subrange(lo as int, hi as int);
    if hi - lo < 2 {
        return false;
    }
    let mut i = lo;
    while i < hi
        invariant
            lo <= i <= hi <= v@.len(),
            t == v@.subrange(lo as int, hi as int),
            forall|j: int| 0 <= j < i - lo ==> is_alpha(#[trigger] t[j]),
        decreases hi - i,
    {
        if !is_alpha_char(v[i]) {
            assert(!is_alpha(t[i - lo]));
            return false;
        }
        i += 1;
    }
    true
}

/// Whether `v[lo..hi]` is a domain name.
fn is_domain_at(v: &Vec<char>, lo: usize, hi: usize) -> (r: bool)
    requires
        lo <= hi <= v@.len(),
    ensures
        r == is_domain(v@.subrange(lo as int, hi as int)),
{
    let ghost d = v@.subrange(lo as int, hi as int);
    // the last dot splits the labels from the top-level label
    let mut k = hi;
    while k > lo && v[k - 1] != '.'
        invariant
            lo <= k <= hi <= v@.len(),
            forall|j: int| k <= j < hi ==> v@[j] != '.',
        decreases k - lo,
    {
        k -= 1;
    }
    if k == lo {
        assert forall|j: int| 0 <= j < d.len() implies d[j] != '.' by {
            assert(d[j] == v@[lo + j]);
        }
        return false;
    }
    let dot = k - 1;
    let ok = is_label_run_at(v, lo, dot) && is_top_label_at(v, k, hi);
    proof {
        let m = dot - lo;
        assert(d.take(m) =~= v@.subrange(lo as int, dot as int));
        assert(d.skip(m + 1) =~= v@.subrange(k as int, hi as int));
        assert(d[m] == '.');
        if !ok {
            assert forall|x: int|
                0 <= x < d.len() && #[trigger] d[x] == '.' implies !(is_label_run(d.take(x))
                && is_top_label(d.skip(x + 1))) by {
                if x < m {
                    assert(d.skip(x + 1)[m - x - 1] == '.');
                    assert(!is_alpha(d.skip(x + 1)[m - x - 1]));
                } else if x > m {
                    assert(v@[lo + x] == '.');
                }
            }
        }
    }
    ok
}

/// Turns an adblock rule into a hosts entry `0.0.0.0 <domain>`, or gives `None`
/// when the line is blank, a comment, not a `||domain^` rule, or names no
/// well-formed domain.
pub fn convert_rule(rule: &str) -> (r: Option<String>)
    ensures
        r is Some <==> converted(rule@) is Some,
        r is Some ==> r->0@ == converted(rule@)->0,
{
    let v = chars_of(rule);
    let n = v.len();
    let stop = find_char(&v, '#', 0, n);
    assert(v@.subrange(0, n as int) =~= v@);
    let (a, b) = trim_bounds(&v, 0, stop);
    let ghost t = v@.subrange(a as int, b as int);
    assert(t == rule_body(rule@));
    if b - a < 2 || v[a] != '|' || v[a + 1] != '|' {
        return None;
    }
    let start = a + 2;
    let caret = find_char(&v, '^', start, b);
    assert(t.skip(2) =~= v@.subrange(start as int, b as int));
    if caret == b {
        assert(!t.skip(2).contains('^'));
        return None;
    }
    assert(t.skip(2)[caret - start] == '^');
    let end = find_char(&v, '$', start, caret);
    assert(candidate(t) == v@.subrange(start as int, end as int));
    if !is_domain_at(&v, start, end) {
        return None;
    }
    let domain = rule.substring_char(start, end);
    let prefix = "0.0.0.0 ";
    proof {
        reveal_strlit("0.0.0.0 ");
        assert(prefix@ =~= sink_prefix());
    }
    let entry = String::from_str(prefix).concat(domain);
    Some(entry)
}

} // verus!
