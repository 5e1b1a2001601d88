//! The hosts file: a commented header with provenance and counts, then one
//! `0.0.0.0 <domain>` line per entry.

use vstd::prelude::*;
use chrono::{Datelike, Timelike};
use crate::fetch::{views, FetchError};
use crate::pipeline::{RunResult, SourceStat};

verus! {

/// A moment in UTC, by calendar fields.
pub struct Timestamp {
    pub year: i32,
    pub month: u32,
    pub day: u32,
    pub hour: u32,
    pub minute: u32,
    pub second: u32,
}

impl Timestamp {
    /// Every field lies in its calendar range.
    pub open spec fn wf(&self) -> bool {
        &&& 1 <= self.month <= 12
        &&& 1 <= self.day <= 31
        &&& self.hour < 24
        &&& self.minute < 60
        &&& self.second < 60
    }
}

/// Relies on `std::time::SystemTime::now`, chrono's `From<SystemTime>` for
/// `DateTime<Utc>` (which also takes a clock set before 1970), and the field
/// accessors of `Datelike` and `Timelike`, whose documentation gives the ranges
/// of month, day, hour, minute and second.
#[verifier::external_body]
pub fn utc_now() -> (r: Timestamp)
    ensures
        r.wf(),
{
    let now = chrono::DateTime::<chrono::Utc>::from(std::time::SystemTime::now());
    Timestamp {
        year: now.year(),
        month: now.month(),
        day: now.day(),
        hour: now.hour(),
        minute: now.minute(),
        second: now.second(),
    }
}

/// The fixed lines at the top of the file.
pub struct Banner {
    pub title: String,
    pub homepage: String,
    pub license: String,
}

pub open spec fn digit(d: int) -> char {
    seq!['0', '1', '2', '3', '4', '5', '6', '7', '8', '9'][d]
}

/// `n` in decimal, without leading zeros.
pub open spec fn decimal(n: nat) -> Seq<char>
    decreases n,
{
    if n < 10 {
        seq![digit(n as int)]
    } else {
        decimal(n / 10).push(digit((n % 10) as int))
    }
}

/// `n` in decimal, with zeros in front up to `width` characters.
pub open spec fn padded(n: nat, width: nat) -> Seq<char> {
    let d = decimal(n);
    if d.len() < width {
        Seq::new((width - d.len()) as nat, |_i: int| '0') + d
    } else {
        d
    }
}

/// A year with at least four digits, signed outside `0..=9999`.
pub open spec fn year_text(y: int) -> Seq<char> {
    if y < 0 {
        seq!['-'] + padded((-y) as nat, 4)
    } else if y > 9999 {
        seq!['+'] + decimal(y as nat)
    } else {
        padded(y as nat, 4)
    }
}

/// `YYYY-MM-DD HH:MM:SS UTC`.
pub open spec fn timestamp_text(t: Timestamp) -> Seq<char> {
    year_text(t.year as int) + seq!['-'] + padded(t.month as nat, 2) + seq!['-'] + padded(
        t.day as nat,
        2,
    ) + seq![' '] + padded(t.hour as nat, 2) + seq![':'] + padded(t.minute as nat, 2) + seq![':']
        + padded(t.second as nat, 2) + seq![' ', 'U', 'T', 'C']
}

fn digit_str(d: u64) -> (r: &'static str)
    requires
        d < 10,
    ensures
        r@ == seq![digit(d as int)],
{
    let digits = "0123456789";
    proof {
        reveal_strlit("0123456789");
        assert(digits@ =~= seq!['0', '1', '2', '3', '4', '5', '6', '7', '8', '9']);
    }
    let r = digits.substring_ascii(d as usize, d as usize + 1);
    assert(r@ =~= seq![digit(d as int)]);
    r
}

fn append_decimal(out: &mut String, n: u64)
    ensures
        final(out)@ == old(out)@ + decimal(n as nat),
    decreases n,
{
    if n >= 10 {
        append_decimal(out, n / 10);
    }
    out.append(digit_str(n % 10));
    proof {
        if n >= 10 {
            assert(old(out)@ + decimal((n / 10) as nat) + seq![digit((n % 10) as int)] =~= old(
                out,
            )@ + decimal(n as nat));
        } else {
            assert(n % 10 == n);
        }
    }
}

fn append_char(out: &mut String, c: char)
    requires
        c == '-' || c == ':' || c == ' ' || c == '+' || c == '0',
    ensures
        final(out)@ == old(out)@ + seq![c],
{
    let s = if c == '-' {
        proof {
            reveal_strlit("-");
        }
        "-"
    } else if c == ':' {
        proof {
            reveal_strlit(":");
        }
        ":"
    } else if c == ' ' {
        proof {
            reveal_strlit(" ");
        }
        " "
    } else if c == '+' {
        proof {
            reveal_strlit("+");
        }
        "+"
    } else {
        proof {
            reveal_strlit("0");
        }
        "0"
    };
    assert(s@ =~= seq![c]);
    out.append(s);
}

fn append_padded(out: &mut String, n: u64, width: usize)
    ensures
        final(out)@ == old(out)@ + padded(n as nat, width as nat),
{
    let mut digits = String::new();
    append_decimal(&mut digits, n);
    assert(digits@ =~= decimal(n as nat));
    let len = digits.as_str().unicode_len();
    let mut k = len;
    while k < width
        invariant
            len <= k,
            k <= width || k == len,
            len == decimal(n as nat).len(),
            out@ == old(out)@ + Seq::new((k - len) as nat, |_i: int| '0'),
        decreases width - k,
    {
        append_char(out, '0');
        assert(Seq::new((k - len) as nat, |_i: int| '0').push('0') =~= Seq::new(
            (k + 1 - len) as nat,
            |_i: int| '0',
        ));
        k += 1;
    }
    out.append(digits.as_str());
    proof {
        if len < width {
            assert(k == width);
        } else {
            assert(Seq::new((k - len) as nat, |_i: int| '0') =~= Seq::<char>::empty());
        }
        assert(old(out)@ + Seq::new((k - len) as nat, |_i: int| '0') + decimal(n as nat) =~= old(
            out,
        )@ + padded(n as nat, width as nat));
    }
}

/// Appends `sep` and a two-digit field.
fn append_field(out: &mut String, sep: char, n: u32)
    requires
        sep == '-' || sep == ':' || sep == ' ',
    ensures
        final(out)@ == old(out)@ + seq![sep] + padded(n as nat, 2),
{
    append_char(out, sep);
    append_padded(out, n as u64, 2);
}

fn append_timestamp(out: &mut String, t: &Timestamp)
    ensures
        final(out)@ == old(out)@ + timestamp_text(*t),
{
    let mut ts = String::new();
    if t.year < 0 {
        append_char(&mut ts, '-');
        append_padded(&mut ts, (0 - (t.year as i64)) as u64, 4);
    } else if t.year > 9999 {
        append_char(&mut ts, '+');
        append_decimal(&mut ts, t.year as u64);
    } else {
        append_padded(&mut ts, t.year as u64, 4);
    }
    assert(ts@ =~= year_text(t.year as int));
    append_field(&mut ts, '-', t.month);
    append_field(&mut ts, '-', t.day);
    append_field(&mut ts, ' ', t.hour);
    append_field(&mut ts, ':', t.minute);
    append_field(&mut ts, ':', t.second);
    let utc = " UTC";
    proof {
        reveal_strlit(" UTC");
        assert(utc@ =~= seq![' ', 'U', 'T', 'C']);
    }
    ts.append(utc);
    out.append(ts.as_str());
}

/// The banner lines and the time of the run.
pub open spec fn banner_text(b: Banner, t: Timestamp) -> Seq<char> {
    "# Title: "@ + b.title@ + "\n#\n# Homepage: "@ + b.homepage@ + "\n# License: "@ + b.license@
        + "\n#\n# Last modified: "@ + timestamp_text(t)
        + "\n#\n# Convert to format: 0.0.0.0 domain.tld\n"@
}

/// The block that names one source, its count of lines, and why it failed, if it did.
pub open spec fn stat_text(st: SourceStat) -> Seq<char> {
    "#\n# Source: "@ + st.source@ + "\n# Successfully fetched "@ + decimal(st.fetched as nat)
        + " domains\n"@ + match st.failure {
        None => Seq::empty(),
        Some(FetchError::BadStatus { code }) => "# Fetch failed: HTTP status "@ + decimal(
            code as nat,
        ) + "\n"@,
        Some(FetchError::Transport) => "# Fetch failed: transport error\n"@,
    }
}

pub open spec fn stats_text(stats: Seq<SourceStat>) -> Seq<char>
    decreases stats.len(),
{
    if stats.len() == 0 {
        Seq::empty()
    } else {
        stats_text(stats.drop_last()) + stat_text(stats.last())
    }
}

/// The closing lines of the header.
pub open spec fn totals_text(unique_raw: nat, unique_entries: nat) -> Seq<char> {
    "#\n# Total unique raw rules: "@ + decimal(unique_raw) + "\n# Total unique converted rules: "@
        + decimal(unique_entries) + "\n#\n"@
}

/// Each entry on a line of its own.
pub open spec fn entries_text(es: Seq<Seq<char>>) -> Seq<char>
    decreases es.len(),
{
    if es.len() == 0 {
        Seq::empty()
    } else {
        entries_text(es.drop_last()) + es.last() + "\n"@
    }
}

/// The whole file.
pub open spec fn hosts_text(b: Banner, t: Timestamp, res: RunResult) -> Seq<char> {
    banner_text(b, t) + stats_text(res.stats@) + totals_text(
        res.unique_raw as nat,
        res.entries@.len(),
    ) + entries_text(views(res.entries@))
}

fn append_stat(out: &mut String, st: &SourceStat)
    ensures
        final(out)@ == old(out)@ + stat_text(*st),
{
    let ghost start = out@;
    out.append("#\n# Source: ");
    out.append(st.source.as_str());
    out.append("\n# Successfully fetched ");
    append_decimal(out, st.fetched as u64);
    out.append(" domains\n");
    match st.failure {
        None => {},
        Some(FetchError::BadStatus { code }) => {
            out.append("# Fetch failed: HTTP status ");
            append_decimal(out, code as u64);
            out.append("\n");
        },
        Some(FetchError::Transport) => {
            out.append("# Fetch failed: transport error\n");
        },
    }
    assert(out@ =~= start + stat_text(*st));
}

/// Renders the hosts file of a run: the banner with the time `at`, one block per
/// source, the totals, then every entry on a line of its own, in the run's order.
pub fn render_hosts(banner: &Banner, at: &Timestamp, result: &RunResult) -> (r: String)
    ensures
        r@ == hosts_text(*banner, *at, *result),
{
    let mut out = String::new();
    out.append("# Title: ");
    out.append(banner.title.as_str());
    out.append("\n#\n# Homepage: ");
    out.append(banner.homepage.as_str());
    out.append("\n# License: ");
    out.append(banner.license.as_str());
    out.append("\n#\n# Last modified: ");
    append_timestamp(&mut out, at);
    out.append("\n#\n# Convert to format: 0.0.0.0 domain.tld\n");
    let ghost head = out@;
    assert(head =~= banner_text(*banner, *at));
    let mut i: usize = 0;
    while i < result.stats.len()
        invariant
            i <= result.stats@.len(),
            out@ == head + stats_text(result.stats@.take(i as int)),
        decreases result.stats.len() - i,
    {
        let ghost before = out@;
        append_stat(&mut out, &result.stats[i]);
        proof {
            let s = result.stats@;
            assert(s.take(i + 1).drop_last() =~= s.take(i as int));
            assert(out@ =~= head + stats_text(s.take(i + 1)));
        }
        i += 1;
    }
    assert(result.stats@.take(i as int) =~= result.stats@);
    let ghost mid = out@;
    out.append("#\n# Total unique raw rules: ");
    append_decimal(&mut out, result.unique_raw as u64);
    out.append("\n# Total unique converted rules: ");
    append_decimal(&mut out, result.entries.len() as u64);
    out.append("\n#\n");
    assert(out@ =~= mid + totals_text(result.unique_raw as nat, result.entries@.len()));
    let ghost top = out@;
    let mut k: usize = 0;
    while k < result.entries.len()
        invariant
            k <= result.entries@.len(),
            out@ == top + entries_text(views(result.entries@).take(k as int)),
        decreases result.entries.len() - k,
    {
        out.append(result.entries[k].as_str());
        out.append("\n");
        proof {
            let es = views(result.entries@);
            assert(es.take(k + 1).drop_last() =~= es.take(k as int));
            assert(es.take(k + 1).last() == result.entries@[k as int]@);
            assert(out@ =~= top + entries_text(es.take(k + 1)));
        }
        k += 1;
    }
    assert(views(result.entries@).take(k as int) =~= views(result.entries@));
    assert(out@ =~= hosts_text(*banner, *at, *result));
    out
}

} // verus!
