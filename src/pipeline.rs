//! Merges what every source gave into one deduplicated list of hosts entries.
//!
//! Sources are taken in the order given and each source's lines in their order;
//! a line or an entry is kept where it first occurs in that order.

use vstd::prelude::*;
use vstd::hash_set::StringHashSet;
use crate::convert::{convert_rule, converted, entry_domain, lemma_entry_is_sink_line};
use crate::fetch::{views, FetchError};

verus! {

/// What one source gave: its lines, or why it gave none.
pub struct SourceReport {
    pub source: String,
    pub lines: Result<Vec<String>, FetchError>,
}

/// How one source fared.
pub struct SourceStat {
    pub source: String,
    /// The number of lines it gave; zero when it failed.
    pub fetched: usize,
    pub failure: Option<FetchError>,
}

/// A run that had lines to work on.
pub struct RunResult {
    /// One per source, in the order of the sources.
    pub stats: Vec<SourceStat>,
    /// How many distinct lines all sources gave together.
    pub unique_raw: usize,
    /// The hosts entries, each once, in the order of their first line.
    pub entries: Vec<String>,
}

/// The end of a run: no entry from any source (every source failed, or gave no
/// line that converts), or a result to write.
pub enum RunOutcome {
    NoData(Vec<SourceStat>),
    Completed(RunResult),
}

/// The lines one source gave; none when it failed.
pub open spec fn report_lines(r: SourceReport) -> Seq<Seq<char>> {
    match r.lines {
        Ok(v) => views(v@),
        Err(_) => Seq::empty(),
    }
}

/// The lines of all sources, source after source.
pub open spec fn all_lines(rs: Seq<SourceReport>) -> Seq<Seq<char>>
    decreases rs.len(),
{
    if rs.len() == 0 {
        Seq::empty()
    } else {
        all_lines(rs.drop_last()) + report_lines(rs.last())
    }
}

/// Each element of `s` once, where it first occurs.
pub open spec fn first_occurrences(s: Seq<Seq<char>>) -> Seq<Seq<char>>
    decreases s.len(),
{
    if s.len() == 0 {
        Seq::empty()
    } else {
        let d = first_occurrences(s.drop_last());
        if s.drop_last().contains(s.last()) {
            d
        } else {
            d.push(s.last())
        }
    }
}

/// The hosts entries of the lines that convert, in order.
pub open spec fn conversions(s: Seq<Seq<char>>) -> Seq<Seq<char>>
    decreases s.len(),
{
    if s.len() == 0 {
        Seq::empty()
    } else {
        let rest = conversions(s.drop_last());
        match converted(s.last()) {
            Some(e) => rest.push(e),
            None => rest,
        }
    }
}

/// The distinct lines of a run, in order.
pub open spec fn unique_lines(rs: Seq<SourceReport>) -> Seq<Seq<char>> {
    first_occurrences(all_lines(rs))
}

/// The entries of a run: the distinct lines converted, each entry once.
pub open spec fn run_entries(rs: Seq<SourceReport>) -> Seq<Seq<char>> {
    first_occurrences(conversions(unique_lines(rs)))
}

/// The record that a run keeps of one source.
pub open spec fn stat_matches(st: SourceStat, r: SourceReport) -> bool {
    &&& st.source@ == r.source@
    &&& st.fetched == report_lines(r).len()
    &&& st.failure == match r.lines {
        Ok(_) => None,
        Err(e) => Some(e),
    }
}

pub open spec fn stats_match(stats: Seq<SourceStat>, rs: Seq<SourceReport>) -> bool {
    stats.len() == rs.len() && forall|i: int|
        0 <= i < rs.len() ==> stat_matches(#[trigger] stats[i], rs[i])
}

proof fn lemma_push_contains(s: Seq<Seq<char>>, x: Seq<char>, y: Seq<char>)
    ensures
        s.push(x).contains(y) <==> (s.contains(y) || y == x),
{
    if s.contains(y) {
        let k = choose|k: int| 0 <= k < s.len() && s[k] == y;
        assert(s.push(x)[k] == y);
    }
    if y == x {
        assert(s.push(x)[s.len() as int] == y);
    }
    if s.push(x).contains(y) {
        let k = choose|k: int| 0 <= k < s.len() + 1 && s.push(x)[k] == y;
        if k < s.len() {
            assert(s[k] == y);
        }
    }
}

/// Merges the sources' lines, converts each distinct line once, and keeps each
/// entry where it first occurs. A run that ends with no entry has no data.
pub fn aggregate(reports: &Vec<SourceReport>) -> (r: RunOutcome)
    ensures
        r is NoData <==> run_entries(reports@).len() == 0,
        match r {
            RunOutcome::NoData(stats) => stats_match(stats@, reports@),
            RunOutcome::Completed(res) => {
                &&& stats_match(res.stats@, reports@)
                &&& res.unique_raw == unique_lines(reports@).len()
                &&& views(res.entries@) == run_entries(reports@)
            },
        },
{
    let mut stats: Vec<SourceStat> = Vec::new();
    let mut seen = StringHashSet::new();
    let mut unique: Vec<String> = Vec::new();
    let mut i: usize = 0;
    proof {
        assert(reports@.take(0) =~= Seq::<SourceReport>::empty());
    }
    while i < reports.len()
        invariant
            i <= reports@.len(),
            stats_match(stats@, reports@.take(i as int)),
            views(unique@) == first_occurrences(all_lines(reports@.take(i as int))),
            forall|x: Seq<char>|
                seen@.contains(x) <==> all_lines(reports@.take(i as int)).contains(x),
        decreases reports.len() - i,
    {
        let ghost base = all_lines(reports@.take(i as int));
        let ghost lines_i = report_lines(reports@[i as int]);
        assert(reports@.take(i + 1).drop_last() =~= reports@.take(i as int));
        assert(all_lines(reports@.take(i + 1)) == base + lines_i);
        let report = &reports[i];
        match &report.lines {
            Ok(lines) => {
                let mut j: usize = 0;
                assert(base + lines_i.take(0) =~= base);
                while j < lines.len()
                    invariant
                        j <= lines@.len(),
                        lines_i == views(lines@),
                        views(unique@) == first_occurrences(base + lines_i.take(j as int)),
                        forall|x: Seq<char>|
                            seen@.contains(x) <==> (base + lines_i.take(j as int)).contains(x),
                    decreases lines.len() - j,
                {
                    let ghost cur = base + lines_i.take(j as int);
                    let ghost x = lines@[j as int]@;
                    assert(base + lines_i.take(j + 1) =~= cur.push(x));
                    assert(cur.push(x).drop_last() =~= cur);
                    let fresh = seen.insert(lines[j].clone());
                    if fresh {
                        unique.push(lines[j].clone());
                        assert(views(unique@) =~= first_occurrences(cur).push(x));
                    }
                    assert forall|y: Seq<char>|
                        seen@.contains(y) <==> cur.push(x).contains(y) by {
                        lemma_push_contains(cur, x, y);
                    }
                    j += 1;
                }
                assert(lines_i.take(j as int) =~= lines_i);
                let stat = SourceStat {
                    source: report.source.clone(),
                    fetched: lines.len(),
                    failure: None,
                };
                stats.push(stat);
            },
            Err(e) => {
                assert(base + lines_i =~= base);
                let stat = SourceStat {
                    source: report.source.clone(),
                    fetched: 0,
                    failure: Some(*e),
                };
                stats.push(stat);
            },
        }
        proof {
            assert forall|k: int| 0 <= k < i + 1 implies stat_matches(
                #[trigger] stats@[k],
                reports@.take(i + 1)[k],
            ) by {
                if k < i {
                    assert(reports@.take(i as int)[k] == reports@.take(i + 1)[k]);
                }
            }
        }
        i += 1;
    }
    assert(reports@.take(i as int) =~= reports@);
    let mut added = StringHashSet::new();
    let mut entries: Vec<String> = Vec::new();
    let mut k: usize = 0;
    proof {
        assert(views(unique@).take(0) =~= Seq::<Seq<char>>::empty());
    }
    while k < unique.len()
        invariant
            k <= unique@.len(),
            stats_match(stats@, reports@),
            views(unique@) == unique_lines(reports@),
            views(entries@) == first_occurrences(conversions(views(unique@).take(k as int))),
            forall|x: Seq<char>|
                added@.contains(x) <==> conversions(views(unique@).take(k as int)).contains(x),
        decreases unique.len() - k,
    {
        let ghost u = views(unique@);
        assert(u.take(k + 1).drop_last() =~= u.take(k as int));
        assert(u.take(k + 1).last() == unique@[k as int]@);
        if let Some(entry) = convert_rule(unique[k].as_str()) {
            let ghost c = conversions(u.take(k as int));
            assert(c.push(entry@).drop_last() =~= c);
            let fresh = added.insert(entry.clone());
            if fresh {
                entries.push(entry);
                assert(views(entries@) =~= first_occurrences(c).push(entry@));
            }
            assert forall|y: Seq<char>| added@.contains(y) <==> c.push(entry@).contains(y) by {
                lemma_push_contains(c, entry@, y);
            }
        }
        k += 1;
    }
    assert(views(unique@).take(k as int) =~= views(unique@));
    if entries.len() == 0 {
        return RunOutcome::NoData(stats);
    }
    RunOutcome::Completed(RunResult { stats, unique_raw: unique.len(), entries })
}

/// `first_occurrences` keeps exactly the elements of `s`, each once.
pub proof fn lemma_first_occurrences(s: Seq<Seq<char>>)
    ensures
        forall|x: Seq<char>| first_occurrences(s).contains(x) <==> s.contains(x),
        forall|i: int, j: int|
            0 <= i < j < first_occurrences(s).len() ==> first_occurrences(s)[i]
                != first_occurrences(s)[j],
    decreases s.len(),
{
    if s.len() > 0 {
        let p = s.drop_last();
        lemma_first_occurrences(p);
        assert(s == p.push(s.last()));
        assert forall|x: Seq<char>| s.contains(x) <==> (p.contains(x) || x == s.last()) by {
            lemma_push_contains(p, s.last(), x);
        }
        if !p.contains(s.last()) {
            let d = first_occurrences(p);
            assert forall|x: Seq<char>| d.push(s.last()).contains(x) <==> (d.contains(x) || x
                == s.last()) by {
                lemma_push_contains(d, s.last(), x);
            }
            assert forall|i: int, j: int|
                0 <= i < j < d.len() + 1 implies d.push(s.last())[i] != d.push(s.last())[j] by {
                if j == d.len() {
                    assert(d.contains(d[i]));
                }
            }
        }
    }
}

/// An entry is among the conversions of `s` exactly when some line of `s` converts to it.
pub proof fn lemma_conversions(s: Seq<Seq<char>>)
    ensures
        forall|e: Seq<char>|
            conversions(s).contains(e) <==> exists|k: int|
                0 <= k < s.len() && #[trigger] converted(s[k]) == Some(e),
    decreases s.len(),
{
    if s.len() > 0 {
        let p = s.drop_last();
        lemma_conversions(p);
        assert forall|e: Seq<char>|
            conversions(s).contains(e) <==> exists|k: int|
                0 <= k < s.len() && #[trigger] converted(s[k]) == Some(e) by {
            let cp = conversions(p);
            match converted(s.last()) {
                Some(x) => {
                    lemma_push_contains(cp, x, e);
                    assert(conversions(s) == cp.push(x));
                },
                None => {
                    assert(conversions(s) == cp);
                },
            }
            if conversions(s).contains(e) {
                if cp.contains(e) {
                    let k = choose|k: int|
                        0 <= k < p.len() && #[trigger] converted(p[k]) == Some(e);
                    assert(s[k] == p[k]);
                } else {
                    assert(converted(s[s.len() - 1]) == Some(e));
                }
            }
            if exists|k: int| 0 <= k < s.len() && #[trigger] converted(s[k]) == Some(e) {
                let k = choose|k: int| 0 <= k < s.len() && #[trigger] converted(s[k]) == Some(e);
                if k < p.len() {
                    assert(p[k] == s[k]);
                    assert(converted(p[k]) == Some(e));
                } else {
                    assert(s[k] == s.last());
                }
            }
        }
    }
}

/// A line of one source is a line of the run.
proof fn lemma_all_lines_contains(rs: Seq<SourceReport>, a: int, l: Seq<char>)
    requires
        0 <= a < rs.len(),
        report_lines(rs[a]).contains(l),
    ensures
        all_lines(rs).contains(l),
    decreases rs.len(),
{
    let p = rs.drop_last();
    let tail = report_lines(rs.last());
    if a == rs.len() - 1 {
        let k = choose|k: int| 0 <= k < tail.len() && tail[k] == l;
        assert((all_lines(p) + tail)[all_lines(p).len() + k] == l);
    } else {
        lemma_all_lines_contains(p, a, l);
        let k = choose|k: int| 0 <= k < all_lines(p).len() && all_lines(p)[k] == l;
        assert((all_lines(p) + tail)[k] == l);
    }
}

/// No two entries of a run name the same domain, and an entry is in the run
/// exactly when some line of some source converts to it.
pub proof fn lemma_run_entries_unique(rs: Seq<SourceReport>)
    ensures
        forall|i: int, j: int|
            0 <= i < j < run_entries(rs).len() ==> entry_domain(run_entries(rs)[i])
                != entry_domain(run_entries(rs)[j]),
        forall|e: Seq<char>|
            run_entries(rs).contains(e) <==> exists|l: Seq<char>|
                all_lines(rs).contains(l) && #[trigger] converted(l) == Some(e),
{
    let u = unique_lines(rs);
    let c = conversions(u);
    lemma_first_occurrences(all_lines(rs));
    lemma_first_occurrences(c);
    lemma_conversions(u);
    let es = run_entries(rs);
    assert forall|i: int, j: int| 0 <= i < j < es.len() implies entry_domain(es[i])
        != entry_domain(es[j]) by {
        assert(c.contains(es[i]));
        assert(c.contains(es[j]));
        let ki = choose|k: int| 0 <= k < u.len() && #[trigger] converted(u[k]) == Some(es[i]);
        let kj = choose|k: int| 0 <= k < u.len() && #[trigger] converted(u[k]) == Some(es[j]);
        lemma_entry_is_sink_line(u[ki]);
        lemma_entry_is_sink_line(u[kj]);
    }
    assert forall|e: Seq<char>| es.contains(e) <==> exists|l: Seq<char>|
        all_lines(rs).contains(l) && #[trigger] converted(l) == Some(e) by {
        if es.contains(e) {
            assert(c.contains(e));
            let k = choose|k: int| 0 <= k < u.len() && #[trigger] converted(u[k]) == Some(e);
            assert(u.contains(u[k]));
            assert(all_lines(rs).contains(u[k]) && converted(u[k]) == Some(e));
        }
        if exists|l: Seq<char>| all_lines(rs).contains(l) && #[trigger] converted(l) == Some(e) {
            let l = choose|l: Seq<char>|
                all_lines(rs).contains(l) && #[trigger] converted(l) == Some(e);
            assert(u.contains(l));
            let k = choose|k: int| 0 <= k < u.len() && u[k] == l;
            assert(converted(u[k]) == Some(e));
            assert(c.contains(e));
        }
    }
}

/// A line of the run is a line of some source.
proof fn lemma_line_has_source(rs: Seq<SourceReport>, l: Seq<char>)
    requires
        all_lines(rs).contains(l),
    ensures
        exists|a: int| 0 <= a < rs.len() && #[trigger] report_lines(rs[a]).contains(l),
    decreases rs.len(),
{
    let p = rs.drop_last();
    let head = all_lines(p);
    let tail = report_lines(rs.last());
    let k = choose|k: int| 0 <= k < (head + tail).len() && (head + tail)[k] == l;
    if k < head.len() {
        assert(head[k] == l);
        lemma_line_has_source(p, l);
        let a = choose|a: int| 0 <= a < p.len() && #[trigger] report_lines(p[a]).contains(l);
        assert(rs[a] == p[a]);
    } else {
        assert(tail[k - head.len()] == l);
        assert(report_lines(rs[rs.len() - 1]).contains(l));
    }
}

/// When one source gives a line that converts and another source fails, the run
/// has entries, every entry that the good source's lines convert to is among
/// them, and the failed source counts no lines.
pub proof fn lemma_partial_failure(rs: Seq<SourceReport>, good: int, bad: int)
    requires
        0 <= good < rs.len(),
        0 <= bad < rs.len(),
        rs[good].lines is Ok,
        exists|l: Seq<char>| report_lines(rs[good]).contains(l) && #[trigger] converted(l) is Some,
        rs[bad].lines is Err,
    ensures
        run_entries(rs).len() > 0,
        forall|l: Seq<char>|
            report_lines(rs[good]).contains(l) && #[trigger] converted(l) is Some
                ==> run_entries(rs).contains(converted(l)->0),
        report_lines(rs[bad]).len() == 0,
{
    lemma_run_entries_unique(rs);
    assert forall|l: Seq<char>|
        report_lines(rs[good]).contains(l) && #[trigger] converted(l) is Some
            implies run_entries(rs).contains(converted(l)->0) by {
        lemma_all_lines_contains(rs, good, l);
    }
    let l0 = choose|l: Seq<char>|
        report_lines(rs[good]).contains(l) && #[trigger] converted(l) is Some;
    assert(run_entries(rs).contains(converted(l0)->0));
}

/// When every source failed or gave no line that converts, the run has no entry,
/// and so no data.
pub proof fn lemma_no_data(rs: Seq<SourceReport>)
    requires
        forall|i: int|
            0 <= i < rs.len() ==> rs[i].lines is Err || forall|l: Seq<char>|
                #[trigger] report_lines(rs[i]).contains(l) ==> converted(l) is None,
    ensures
        run_entries(rs).len() == 0,
{
    lemma_run_entries_unique(rs);
    if run_entries(rs).len() > 0 {
        let e = run_entries(rs)[0];
        assert(run_entries(rs).contains(e));
        let l = choose|l: Seq<char>|
            all_lines(rs).contains(l) && #[trigger] converted(l) == Some(e);
        lemma_line_has_source(rs, l);
        let a = choose|a: int| 0 <= a < rs.len() && #[trigger] report_lines(rs[a]).contains(l);
        if rs[a].lines is Err {
            assert(report_lines(rs[a]).len() == 0);
        }
    }
}

} // verus!
