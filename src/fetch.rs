//! What the library decides about one fetched source: whether its status
//! counts as success, and which rule lines its body holds.

use vstd::prelude::*;
use vstd::slice::slice_subrange;
use crate::text::{chars_of, trim, trim_bounds};

verus! {

/// Why one source gave no lines.
#[derive(Clone, Copy, Debug, PartialEq, Eq, Structural)]
pub enum FetchError {
    /// The server answered with a status outside `200..=299`.
    BadStatus { code: u16 },
    /// The request or the body failed on the way (connection, timeout, name lookup).
    Transport,
}

/// Accepts a `2xx` status and turns any other into `FetchError::BadStatus`.
pub fn check_status(code: u16) -> (r: Result<(), FetchError>)
    ensures
        r is Ok <==> 200 <= code <= 299,
        r is Err ==> r == Err::<(), FetchError>(FetchError::BadStatus { code }),
{
    if 200 <= code && code <= 299 {
        Ok(())
    } else {
        Err(FetchError::BadStatus { code })
    }
}

/// The pieces of `s` between line feeds, in order: `n` line feeds make `n + 1` pieces.
pub open spec fn pieces(s: Seq<char>) -> Seq<Seq<char>>
    decreases s.len(),
{
    if s.len() == 0 {
        seq![Seq::empty()]
    } else {
        let p = pieces(s.drop_last());
        if s.last() == '\n' {
            p.push(Seq::empty())
        } else {
            p.update(p.len() - 1, p.last().push(s.last()))
        }
    }
}

/// The trimmed pieces that are not empty, in order.
pub open spec fn kept_lines(ps: Seq<Seq<char>>) -> Seq<Seq<char>>
    decreases ps.len(),
{
    if ps.len() == 0 {
        Seq::empty()
    } else {
        let rest = kept_lines(ps.drop_last());
        let t = trim(ps.last());
        if t.len() == 0 {
            rest
        } else {
            rest.push(t)
        }
    }
}

/// `s` without a byte-order mark at its start.
pub open spec fn without_bom(s: Seq<char>) -> Seq<char> {
    if s.len() > 0 && s[0] == '\u{feff}' {
        s.drop_first()
    } else {
        s
    }
}

/// The rule lines of a response body: a leading byte-order mark dropped, each
/// line trimmed, blank lines dropped.
pub open spec fn body_lines(s: Seq<char>) -> Seq<Seq<char>> {
    kept_lines(pieces(without_bom(s)))
}

/// The text of each string, in order.
pub open spec fn views(v: Seq<String>) -> Seq<Seq<char>> {
    v.map_values(|l: String| l@)
}

/// Relies on `String`'s `FromIterator<&char>`: the string holds the characters in order.
#[verifier::external_body]
fn string_from_chars(chars: &[char]) -> (r: String)
    ensures
        r@ == chars@,
{
    chars.iter().collect()
}

/// Drops a byte-order mark at the start of a response body, splits the body into
/// lines, trims each, and drops the blank ones.
/// A `\r` before a line feed is white space and goes with the trimming.
pub fn rule_lines(text: &str) -> (r: Vec<String>)
    ensures
        views(r@) == body_lines(text@),
{
    let mut v = chars_of(text);
    if v.len() > 0 && v[0] == '\u{feff}' {
        v.remove(0);
        assert(v@ =~= text@.drop_first());
    }
    assert(v@ == without_bom(text@));
    let n = v.len();
    let mut out: Vec<String> = Vec::new();
    let mut start: usize = 0;
    let mut i: usize = 0;
    proof {
        assert(v@.take(0) =~= Seq::<char>::empty());
        assert(v@.subrange(0, 0) =~= Seq::<char>::empty());
    }
    while i < n
        invariant
            start <= i <= n == v@.len(),
            pieces(v@.take(i as int)).len() >= 1,
            pieces(v@.take(i as int)).last() == v@.subrange(start as int, i as int),
            views(out@) == kept_lines(pieces(v@.take(i as int)).drop_last()),
        decreases n - i,
    {
        let ghost p = pieces(v@.take(i as int));
        assert(v@.take(i + 1).drop_last() =~= v@.take(i as int));
        if v[i] == '\n' {
            let (a, b) = trim_bounds(&v, start, i);
            if a < b {
                let line = string_from_chars(slice_subrange(v.as_slice(), a, b));
                out.push(line);
            }
            proof {
                assert(p.push(Seq::empty()).drop_last() =~= p);
                assert(p == p.drop_last().push(p.last()));
                assert(views(out@) =~= kept_lines(p));
                assert(v@.subrange(i + 1, i + 1) =~= Seq::<char>::empty());
            }
            start = i + 1;
        } else {
            proof {
                let q = p.update(p.len() - 1, p.last().push(v@[i as int]));
                assert(q.drop_last() =~= p.drop_last());
                assert(v@.subrange(start as int, i + 1) =~= v@.subrange(
                    start as int,
                    i as int,
                ).push(v@[i as int]));
            }
        }
        i += 1;
    }
    let ghost p = pieces(v@.take(n as int));
    let (a, b) = trim_bounds(&v, start, n);
    if a < b {
        let line = string_from_chars(slice_subrange(v.as_slice(), a, b));
        out.push(line);
    }
    proof {
        assert(v@.take(n as int) =~= v@);
        assert(p == p.drop_last().push(p.last()));
        assert(views(out@) =~= kept_lines(p));
    }
    out
}

} // verus!
