//! The table and the loop: the order and the text of the rows that are
//! shown, and what the monitor does after each wait for a key.

use crate::binary64::{
    nearest_double, nearest_quotient, nearest_tenth, pow2, pow2_is_positive, quotient_double,
    round_to_even, rounding_stays_close, small_numbers_are_exact, to_double,
};
use crate::io_analyzer::{analysis, analyzed_views, AnalyzedProc, Impact, IoAnalyzer, Rate};
use crate::proc_scanner::{
    entry_views, records_of, seen_after, CollectionError, ProcIo, ProcScanner, RawSample,
};
use vstd::prelude::*;

verus! {

// ---------------------------------------------------------------------------
// The order of the rows
// ---------------------------------------------------------------------------

/// The test for a combined rate of `k` millionths of a megabyte.
pub open spec fn has_rate(k: int) -> spec_fn(AnalyzedProc) -> bool {
    |p: AnalyzedProc| p.combined() == k
}

/// The records of `s` whose combined rate is `k`, in their order in `s`.
pub open spec fn with_rate(s: Seq<AnalyzedProc>, k: int) -> Seq<AnalyzedProc> {
    s.filter(has_rate(k))
}

/// No record of `s` has a higher combined rate than one before it.
pub open spec fn descending(s: Seq<AnalyzedProc>) -> bool {
    forall|i: int, j: int| 0 <= i <= j < s.len() ==> s[i].combined() >= s[j].combined()
}

/// `after` is `before` sorted by combined rate, highest first, with records
/// of equal rate in the order they had in `before`: it holds the same
/// records as often, and for each rate the records of that rate are in the
/// same order. This leaves one `after` for each `before`
/// ([`sorted_from_is_unique`]).
pub open spec fn sorted_from(before: Seq<AnalyzedProc>, after: Seq<AnalyzedProc>) -> bool {
    &&& after.len() == before.len()
    &&& after.to_multiset() == before.to_multiset()
    &&& descending(after)
    &&& forall|k: int| #[trigger] with_rate(after, k) == with_rate(before, k)
}

/// Where no record has the rate `k`, none is picked.
proof fn lemma_with_rate_none(s: Seq<AnalyzedProc>, k: int)
    requires
        forall|i: int| 0 <= i < s.len() ==> s[i].combined() != k,
    ensures
        with_rate(s, k) == Seq::<AnalyzedProc>::empty(),
{
    let picked = s.filter(has_rate(k));
    if picked.len() > 0 {
        s.lemma_filter_pred(has_rate(k), 0);
        let x = picked[0];
        assert(has_rate(k)(x));
        s.lemma_filter_contains_rev(has_rate(k), x);
        assert(s.contains(x));
        let j = choose|j: int| 0 <= j < s.len() && s[j] == x;
        assert(s[j].combined() == k);
    }
    assert(picked =~= Seq::<AnalyzedProc>::empty());
}

/// Moving the record at `i` forward to `p`, over records of other rates
/// only, changes for no rate which records have it, nor their order.
proof fn lemma_move_keeps_rates(s: Seq<AnalyzedProc>, p: int, i: int, k: int)
    requires
        0 <= p <= i < s.len(),
        forall|j: int| p <= j < i ==> s[j].combined() != s[i].combined(),
    ensures
        with_rate(s.remove(i).insert(p, s[i]), k) == with_rate(s, k),
{
    let x = s[i];
    let a = s.subrange(0, p);
    let b = s.subrange(p, i);
    let c = s.subrange(i + 1, s.len() as int);
    let one = seq![x];
    let moved = s.remove(i).insert(p, x);
    assert(s =~= a + b + one + c);
    assert(moved =~= a + one + b + c);
    let f = has_rate(k);
    Seq::filter_distributes_over_add(a + b + one, c, f);
    Seq::filter_distributes_over_add(a + b, one, f);
    Seq::filter_distributes_over_add(a, b, f);
    Seq::filter_distributes_over_add(a + one + b, c, f);
    Seq::filter_distributes_over_add(a + one, b, f);
    Seq::filter_distributes_over_add(a, one, f);
    if x.combined() == k {
        assert forall|j: int| 0 <= j < b.len() implies b[j].combined() != k by {
            assert(b[j] == s[p + j]);
        }
        lemma_with_rate_none(b, k);
        assert(a.filter(f) + one.filter(f) + b.filter(f) =~= a.filter(f) + b.filter(f)
            + one.filter(f));
    } else {
        lemma_with_rate_none(one, k);
        assert(a.filter(f) + one.filter(f) + b.filter(f) =~= a.filter(f) + b.filter(f)
            + one.filter(f));
    }
}

/// Moving the record at `i` to `p` changes neither which records there are
/// nor how often each occurs.
proof fn lemma_move_keeps_records(s: Seq<AnalyzedProc>, p: int, i: int)
    requires
        0 <= p <= i < s.len(),
    ensures
        s.remove(i).insert(p, s[i]).to_multiset() == s.to_multiset(),
{
    broadcast use vstd::multiset::group_multiset_axioms;

    vstd::seq_lib::to_multiset_remove(s, i);
    vstd::seq_lib::to_multiset_insert(s.remove(i), p, s[i]);
    s.to_multiset_ensures();
    assert(s.contains(s[i]));
    assert(s.to_multiset().count(s[i]) > 0);
    assert(s.to_multiset().remove(s[i]).insert(s[i]) =~= s.to_multiset());
}

/// Sorts the records by combined rate, highest first. Records of equal rate
/// keep their order.
pub fn sort_by_rate(procs: &mut Vec<AnalyzedProc>)
    ensures
        sorted_from(old(procs)@, final(procs)@),
{
    let mut i: usize = 0;
    assert(descending(procs@.take(0)));
    while i < procs.len()
        invariant
            i <= procs.len(),
            procs@.len() == old(procs)@.len(),
            procs@.to_multiset() == old(procs)@.to_multiset(),
            descending(procs@.take(i as int)),
            forall|k: int| #[trigger] with_rate(procs@, k) == with_rate(old(procs)@, k),
        decreases procs.len() - i,
    {
        let key = procs[i].combined_rate();
        let mut p: usize = i;
        while p > 0 && procs[p - 1].combined_rate() < key
            invariant
                p <= i < procs.len(),
                key == procs@[i as int].combined(),
                forall|j: int| p <= j < i ==> procs@[j].combined() < key,
            decreases p,
        {
            p -= 1;
        }
        let ghost s = procs@;
        let x = procs.remove(i);
        procs.insert(p, x);
        proof {
            assert forall|k: int| #[trigger] with_rate(procs@, k) == with_rate(old(procs)@, k) by {
                lemma_move_keeps_rates(s, p as int, i as int, k);
            }
            lemma_move_keeps_records(s, p as int, i as int);
            let sorted = procs@.take(i + 1);
            assert forall|m: int, n: int| 0 <= m <= n < sorted.len() implies sorted[m].combined()
                >= sorted[n].combined() by {
                let old_m = if m < p { m } else if m == p { i as int } else { m - 1 };
                let old_n = if n < p { n } else if n == p { i as int } else { n - 1 };
                assert(sorted[m] == s[old_m]);
                assert(sorted[n] == s[old_n]);
                if m != p && n != p {
                    assert(s.take(i as int)[old_m] == s[old_m]);
                    assert(s.take(i as int)[old_n] == s[old_n]);
                } else if m == p && n != p {
                } else if n == p && m != p {
                    if p > 0 {
                        assert(s.take(i as int)[old_m] == s[old_m]);
                        assert(s.take(i as int)[p - 1] == s[p - 1]);
                    }
                }
            }
        }
        i += 1;
    }
    assert(procs@.take(procs@.len() as int) =~= procs@);
}

/// A record of rate `k` is among those picked for `k`.
proof fn lemma_with_rate_some(s: Seq<AnalyzedProc>, i: int)
    requires
        0 <= i < s.len(),
    ensures
        with_rate(s, s[i].combined()).len() > 0,
{
    let k = s[i].combined();
    assert(has_rate(k)(s[i]));
    s.lemma_filter_contains(has_rate(k), i);
}

/// Where records are picked for `k`, a record of that rate exists.
proof fn lemma_with_rate_witness(s: Seq<AnalyzedProc>, k: int) -> (j: int)
    requires
        with_rate(s, k).len() > 0,
    ensures
        0 <= j < s.len(),
        s[j].combined() == k,
{
    let picked = s.filter(has_rate(k));
    s.lemma_filter_pred(has_rate(k), 0);
    let x = picked[0];
    assert(has_rate(k)(x));
    assert(picked.contains(x));
    s.lemma_filter_contains_rev(has_rate(k), x);
    choose|j: int| 0 <= j < s.len() && s[j] == x
}

/// What is picked from `s` without its last record.
proof fn lemma_with_rate_drop_last(s: Seq<AnalyzedProc>, k: int)
    requires
        s.len() > 0,
    ensures
        s.last().combined() == k ==> with_rate(s, k) == with_rate(s.drop_last(), k).push(
            s.last(),
        ),
        s.last().combined() != k ==> with_rate(s, k) == with_rate(s.drop_last(), k),
{
    reveal(Seq::filter);
    assert(has_rate(k)(s.last()) == (s.last().combined() == k));
}

/// Sorting has one result: two sequences that are both `before` sorted by
/// combined rate, with records of equal rate in the order of `before`, are
/// the same sequence.
pub proof fn sorted_from_is_unique(
    before: Seq<AnalyzedProc>,
    first: Seq<AnalyzedProc>,
    second: Seq<AnalyzedProc>,
)
    requires
        sorted_from(before, first),
        sorted_from(before, second),
    ensures
        first == second,
{
    assert forall|k: int| #[trigger] with_rate(first, k) == with_rate(second, k) by {
        assert(with_rate(first, k) == with_rate(before, k));
        assert(with_rate(second, k) == with_rate(before, k));
    }
    lemma_same_order(first, second);
}

/// Two descending sequences of one length that agree, for each rate, on the
/// records of that rate and their order are the same sequence.
proof fn lemma_same_order(a: Seq<AnalyzedProc>, b: Seq<AnalyzedProc>)
    requires
        a.len() == b.len(),
        descending(a),
        descending(b),
        forall|k: int| #[trigger] with_rate(a, k) == with_rate(b, k),
    ensures
        a == b,
    decreases a.len(),
{
    if a.len() == 0 {
        assert(a =~= b);
    } else {
        let ka = a.last().combined();
        let kb = b.last().combined();
        lemma_with_rate_some(a, a.len() - 1);
        lemma_with_rate_some(b, b.len() - 1);
        assert(with_rate(a, kb) == with_rate(b, kb));
        assert(with_rate(a, ka) == with_rate(b, ka));
        let ja = lemma_with_rate_witness(a, kb);
        let jb = lemma_with_rate_witness(b, ka);
        assert(ka == kb);
        lemma_with_rate_drop_last(a, ka);
        lemma_with_rate_drop_last(b, ka);
        assert(a.last() == with_rate(a, ka).last());
        assert(b.last() == with_rate(b, ka).last());
        assert(a.last() == b.last());
        let a0 = a.drop_last();
        let b0 = b.drop_last();
        assert forall|k: int| #[trigger] with_rate(a0, k) == with_rate(b0, k) by {
            lemma_with_rate_drop_last(a, k);
            lemma_with_rate_drop_last(b, k);
            assert(with_rate(a, k) == with_rate(b, k));
            if k == ka {
                assert(with_rate(a0, k) =~= with_rate(a, k).drop_last());
                assert(with_rate(b0, k) =~= with_rate(b, k).drop_last());
            }
        }
        assert(descending(a0)) by {
            assert forall|i: int, j: int| 0 <= i <= j < a0.len() implies a0[i].combined()
                >= a0[j].combined() by {
                assert(a0[i] == a[i] && a0[j] == a[j]);
            }
        }
        assert(descending(b0)) by {
            assert forall|i: int, j: int| 0 <= i <= j < b0.len() implies b0[i].combined()
                >= b0[j].combined() by {
                assert(b0[i] == b[i] && b0[j] == b[j]);
            }
        }
        lemma_same_order(a0, b0);
        assert(a =~= a0.push(a.last()));
        assert(b =~= b0.push(b.last()));
    }
}

/// A sequence that is already in descending order is its own sorting.
pub proof fn sorted_stays(s: Seq<AnalyzedProc>)
    requires
        descending(s),
    ensures
        sorted_from(s, s),
{
}

// ---------------------------------------------------------------------------
// The text of the rows
// ---------------------------------------------------------------------------

/// The character for the digit `d`.
pub open spec fn digit(d: int) -> char {
    if d == 0 {
        '0'
    } else if d == 1 {
        '1'
    } else if d == 2 {
        '2'
    } else if d == 3 {
        '3'
    } else if d == 4 {
        '4'
    } else if d == 5 {
        '5'
    } else if d == 6 {
        '6'
    } else if d == 7 {
        '7'
    } else if d == 8 {
        '8'
    } else {
        '9'
    }
}

/// `n` in decimal digits, without leading zeros.
pub open spec fn decimal(n: nat) -> Seq<char>
    decreases n,
{
    if n < 10 {
        seq![digit(n as int)]
    } else {
        decimal(n / 10).push(digit((n % 10) as int))
    }
}

/// `i` in decimal digits, after a minus sign where it is negative.
pub open spec fn signed_decimal(i: int) -> Seq<char> {
    if i < 0 {
        seq!['-'] + decimal((-i) as nat)
    } else {
        decimal(i as nat)
    }
}

/// The double-precision number that stands for the rate in megabytes: the
/// count of millionths as a double, divided by a million in double
/// precision. It is the mantissa `m` and the `k` of the double `m` divided
/// by 2 to the power `k`.
pub open spec fn rate_double(r: Rate) -> (nat, nat) {
    nearest_quotient(nearest_double(r.millionths as nat), 1_000_000)
}

/// The rate in tenths of a megabyte as it is shown: the tenth nearest to the
/// double that stands for the rate; where that double lies half way between
/// two tenths, the even one. A rate that itself lies half way between two
/// tenths goes where its double lies, which is mostly not on the mark.
pub open spec fn tenths(r: Rate) -> int {
    nearest_tenth(rate_double(r).0, rate_double(r).1)
}

/// What follows each rate.
pub open spec fn rate_unit() -> Seq<char> {
    seq![' ', 'M', 'B', '/', 's']
}

/// The rate with one decimal and its unit.
pub open spec fn rate_text(r: Rate) -> Seq<char> {
    decimal((tenths(r) / 10) as nat) + seq!['.', digit(tenths(r) % 10)] + rate_unit()
}

/// The token shown for an impact.
pub open spec fn label_of(impact: Impact) -> Seq<char> {
    match impact {
        Impact::High => seq!['H', 'I', 'G', 'H'],
        Impact::Medium => seq!['M', 'E', 'D'],
        Impact::Low => seq!['L', 'O', 'W'],
    }
}

/// The cells of the row for one record: identifier, command name, read
/// rate, write rate, impact.
pub open spec fn row_of(p: AnalyzedProc) -> Seq<Seq<char>> {
    seq![
        signed_decimal(p.pid as int),
        p.cmd@,
        rate_text(p.read_per_s),
        rate_text(p.write_per_s),
        label_of(p.impact),
    ]
}

/// The rows for the records, in the records' order.
pub open spec fn rows_of(s: Seq<AnalyzedProc>) -> Seq<Seq<Seq<char>>> {
    Seq::new(s.len(), |i: int| row_of(s[i]))
}

/// The text of each cell.
pub open spec fn cell_texts(cells: Seq<String>) -> Seq<Seq<char>> {
    Seq::new(cells.len(), |i: int| cells[i]@)
}

/// The text of each cell of each row.
pub open spec fn row_texts(rows: Seq<Vec<String>>) -> Seq<Seq<Seq<char>>> {
    Seq::new(rows.len(), |i: int| cell_texts(rows[i]@))
}

/// The digit `d` as a string.
fn digit_str(d: u128) -> (s: &'static str)
    requires
        d < 10,
    ensures
        s@ == seq![digit(d as int)],
{
    proof {
        reveal_strlit("0");
        reveal_strlit("1");
        reveal_strlit("2");
        reveal_strlit("3");
        reveal_strlit("4");
        reveal_strlit("5");
        reveal_strlit("6");
        reveal_strlit("7");
        reveal_strlit("8");
        reveal_strlit("9");
    }
    let s = if d == 0 {
        "0"
    } else if d == 1 {
        "1"
    } else if d == 2 {
        "2"
    } else if d == 3 {
        "3"
    } else if d == 4 {
        "4"
    } else if d == 5 {
        "5"
    } else if d == 6 {
        "6"
    } else if d == 7 {
        "7"
    } else if d == 8 {
        "8"
    } else {
        "9"
    };
    assert(s@ =~= seq![digit(d as int)]);
    s
}

/// Appends `n` in decimal digits to `out`.
pub fn push_decimal(out: &mut String, n: u128)
    ensures
        final(out)@ == old(out)@ + decimal(n as nat),
    decreases n,
{
    if n >= 10 {
        push_decimal(out, n / 10);
    }
    out.append(digit_str(n % 10));
    assert(out@ =~= old(out)@ + decimal(n as nat));
}

/// `pid` in decimal digits.
pub fn format_pid(pid: i32) -> (s: String)
    ensures
        s@ == signed_decimal(pid as int),
{
    let mut s = String::new();
    if pid < 0 {
        proof {
            reveal_strlit("-");
        }
        s.append("-");
        assert(s@ =~= seq!['-']);
        push_decimal(&mut s, (-(pid as i64)) as u128);
    } else {
        push_decimal(&mut s, pid as u128);
        assert(s@ =~= decimal(pid as nat));
    }
    s
}

/// The rate in megabytes as a double-precision number, shown with one
/// decimal and its unit, as in `12.3 MB/s`.
pub fn format_rate(r: Rate) -> (s: String)
    ensures
        s@ == rate_text(r),
{
    let whole = to_double(r.millionths);
    let (m, unit) = quotient_double(whole, 1_000_000);
    let t = round_to_even(10 * m, unit);
    let mut s = String::new();
    push_decimal(&mut s, t / 10);
    proof {
        reveal_strlit(".");
        reveal_strlit(" MB/s");
    }
    s.append(".");
    s.append(digit_str(t % 10));
    s.append(" MB/s");
    assert(s@ =~= rate_text(r));
    s
}

/// The token shown for an impact: `HIGH`, `MED` or `LOW`.
pub fn label(impact: Impact) -> (s: &'static str)
    ensures
        s@ == label_of(impact),
{
    proof {
        reveal_strlit("HIGH");
        reveal_strlit("MED");
        reveal_strlit("LOW");
    }
    let s = match impact {
        Impact::High => "HIGH",
        Impact::Medium => "MED",
        Impact::Low => "LOW",
    };
    assert(s@ =~= label_of(impact));
    s
}

/// The cells of the row for one record.
pub fn row(p: &AnalyzedProc) -> (cells: Vec<String>)
    ensures
        cell_texts(cells@) == row_of(*p),
{
    let mut cells: Vec<String> = Vec::new();
    cells.push(format_pid(p.pid));
    cells.push(p.cmd.clone());
    cells.push(format_rate(p.read_per_s));
    cells.push(format_rate(p.write_per_s));
    cells.push(String::from_str(label(p.impact)));
    assert(cell_texts(cells@) =~= row_of(*p));
    cells
}

/// Lays the records out for display: sorts them by combined rate, highest
/// first, and gives the rows of the table in that order.
pub fn draw(procs: &mut Vec<AnalyzedProc>) -> (rows: Vec<Vec<String>>)
    ensures
        sorted_from(old(procs)@, final(procs)@),
        row_texts(rows@) == rows_of(final(procs)@),
{
    sort_by_rate(procs);
    let mut rows: Vec<Vec<String>> = Vec::new();
    let mut i: usize = 0;
    while i < procs.len()
        invariant
            i <= procs.len(),
            row_texts(rows@) == rows_of(procs@.take(i as int)),
        decreases procs.len() - i,
    {
        let ghost before = row_texts(rows@);
        let cells = row(&procs[i]);
        let ghost added = cell_texts(cells@);
        rows.push(cells);
        assert(row_texts(rows@) =~= before.push(added));
        assert(rows_of(procs@.take(i + 1)) =~= rows_of(procs@.take(i as int)).push(
            row_of(procs@[i as int]),
        ));
        i += 1;
    }
    assert(procs@.take(procs@.len() as int) =~= procs@);
    rows
}

// ---------------------------------------------------------------------------
// The columns
// ---------------------------------------------------------------------------

/// The title over the table.
pub const TITLE: &'static str = "IOMap";

/// How wide a column is.
#[derive(Debug, Clone, Copy, PartialEq, Eq, Structural)]
pub enum ColumnWidth {
    /// So many cells.
    Length(u16),
    /// So many hundredths of the table's width.
    Percentage(u16),
}

/// The widths of the five columns: identifier, command name, read rate,
/// write rate, impact. The command name takes a share of the table; the
/// others are fixed.
pub open spec fn widths_of() -> Seq<ColumnWidth> {
    seq![
        ColumnWidth::Length(6),
        ColumnWidth::Percentage(40),
        ColumnWidth::Length(12),
        ColumnWidth::Length(12),
        ColumnWidth::Length(8),
    ]
}

/// The titles of the five columns.
pub open spec fn titles_of() -> Seq<Seq<char>> {
    seq![
        seq!['P', 'I', 'D'],
        seq!['C', 'M', 'D'],
        seq!['R', 'E', 'A', 'D', '/', 's'],
        seq!['W', 'R', 'I', 'T', 'E', '/', 's'],
        seq!['I', 'M', 'P', 'A', 'C', 'T'],
    ]
}

/// The text of each title.
pub open spec fn title_texts(titles: Seq<&'static str>) -> Seq<Seq<char>> {
    Seq::new(titles.len(), |i: int| titles[i]@)
}

/// The widths of the columns, from left to right.
pub fn widths() -> (w: Vec<ColumnWidth>)
    ensures
        w@ == widths_of(),
{
    let mut w: Vec<ColumnWidth> = Vec::new();
    w.push(ColumnWidth::Length(6));
    w.push(ColumnWidth::Percentage(40));
    w.push(ColumnWidth::Length(12));
    w.push(ColumnWidth::Length(12));
    w.push(ColumnWidth::Length(8));
    assert(w@ =~= widths_of());
    w
}

/// The header row: `PID`, `CMD`, `READ/s`, `WRITE/s`, `IMPACT`.
pub fn header() -> (titles: Vec<&'static str>)
    ensures
        title_texts(titles@) == titles_of(),
{
    proof {
        reveal_strlit("PID");
        reveal_strlit("CMD");
        reveal_strlit("READ/s");
        reveal_strlit("WRITE/s");
        reveal_strlit("IMPACT");
    }
    let mut titles: Vec<&'static str> = Vec::new();
    titles.push("PID");
    titles.push("CMD");
    titles.push("READ/s");
    titles.push("WRITE/s");
    titles.push("IMPACT");
    assert(titles@[0]@ =~= titles_of()[0]);
    assert(titles@[1]@ =~= titles_of()[1]);
    assert(titles@[2]@ =~= titles_of()[2]);
    assert(titles@[3]@ =~= titles_of()[3]);
    assert(titles@[4]@ =~= titles_of()[4]);
    assert(title_texts(titles@) =~= titles_of());
    titles
}

// ---------------------------------------------------------------------------
// The loop
// ---------------------------------------------------------------------------

/// Whether the monitor goes on.
#[derive(Debug, Clone, Copy, PartialEq, Eq, Structural)]
pub enum LoopState {
    Running,
    Stopped,
}

/// What the wait for a key gave.
#[derive(Debug, Clone, Copy, PartialEq, Eq, Structural)]
pub enum Input {
    /// The interval passed without input.
    Timeout,
    /// A key that stands for a character was pressed.
    Key(char),
    /// Any other input.
    Other,
}

/// What happened in a cycle.
#[derive(Debug, Clone, Copy, PartialEq, Eq, Structural)]
pub enum Event {
    /// The scan failed: the list of processes could not be had.
    ScanFailed,
    /// The table was shown, `elapsed_nanos` nanoseconds after the cycle
    /// began.
    Drawn { elapsed_nanos: u128 },
    /// The wait for a key is over, `elapsed_nanos` nanoseconds after the
    /// cycle began.
    Waited { input: Input, elapsed_nanos: u128 },
}

/// What the caller does next.
#[derive(Debug, Clone, Copy, PartialEq, Eq, Structural)]
pub enum Action {
    /// Restore the terminal and end with the scan's error.
    Abort,
    /// Restore the terminal and end normally.
    Exit,
    /// Wait for a key, for so many nanoseconds at most, and report what
    /// came.
    Wait { nanos: u128 },
    /// Stay idle for so many nanoseconds, then begin the next cycle.
    Idle { nanos: u128 },
}

/// The interval between two cycles where none is asked for, in
/// milliseconds.
pub const DEFAULT_INTERVAL_MS: u64 = 1000;

/// The character that ends the monitor.
pub const QUIT_KEY: char = 'q';

/// The number of nanoseconds in a millisecond.
pub const NANOS_PER_MILLI: u128 = 1_000_000;

/// The input asks the monitor to end.
pub open spec fn is_quit(input: Input) -> bool {
    input == Input::Key(QUIT_KEY)
}

/// What is left of an interval of `refresh_ms` milliseconds once
/// `elapsed_nanos` nanoseconds of it have passed, in nanoseconds; nothing
/// where the cycle took the interval or longer.
pub open spec fn idle_of(refresh_ms: u64, elapsed_nanos: u128) -> int {
    let interval = refresh_ms as int * NANOS_PER_MILLI as int;
    if elapsed_nanos < interval {
        interval - elapsed_nanos
    } else {
        0
    }
}

/// The state after `event` and what the caller does next. A stopped monitor
/// stays stopped. A running one stops when the scan fails and when the key
/// to quit was pressed. Once the table is shown it waits for a key for what
/// is left of the interval; after any input but the key to quit, and after
/// none, it idles for what is then left of the interval and goes on.
pub open spec fn next(state: LoopState, refresh_ms: u64, event: Event) -> (LoopState, Action) {
    match state {
        LoopState::Stopped => (LoopState::Stopped, Action::Exit),
        LoopState::Running => match event {
            Event::ScanFailed => (LoopState::Stopped, Action::Abort),
            Event::Drawn { elapsed_nanos } => (
                LoopState::Running,
                Action::Wait { nanos: idle_of(refresh_ms, elapsed_nanos) as u128 },
            ),
            Event::Waited { input, elapsed_nanos } => if is_quit(input) {
                (LoopState::Stopped, Action::Exit)
            } else {
                (
                    LoopState::Running,
                    Action::Idle { nanos: idle_of(refresh_ms, elapsed_nanos) as u128 },
                )
            },
        },
    }
}

/// What is left of the interval after `elapsed_nanos` nanoseconds.
pub fn idle_nanos(refresh_ms: u64, elapsed_nanos: u128) -> (nanos: u128)
    ensures
        nanos == idle_of(refresh_ms, elapsed_nanos),
{
    let interval: u128 = refresh_ms as u128 * NANOS_PER_MILLI;
    if elapsed_nanos < interval {
        interval - elapsed_nanos
    } else {
        0
    }
}

/// One decision of the loop: the state after `event`, and what to do next.
pub fn step(state: LoopState, refresh_ms: u64, event: Event) -> (out: (LoopState, Action))
    ensures
        out == next(state, refresh_ms, event),
{
    match state {
        LoopState::Stopped => (LoopState::Stopped, Action::Exit),
        LoopState::Running => match event {
            Event::ScanFailed => (LoopState::Stopped, Action::Abort),
            Event::Drawn { elapsed_nanos } => (
                LoopState::Running,
                Action::Wait { nanos: idle_nanos(refresh_ms, elapsed_nanos) },
            ),
            Event::Waited { input, elapsed_nanos } => {
                let quit = match input {
                    Input::Key(c) => c == QUIT_KEY,
                    _ => false,
                };
                if quit {
                    (LoopState::Stopped, Action::Exit)
                } else {
                    (LoopState::Running, Action::Idle { nanos: idle_nanos(refresh_ms, elapsed_nanos) })
                }
            },
        },
    }
}

/// A stopped monitor stays stopped, whatever happens.
pub proof fn stopped_stays_stopped(refresh_ms: u64, event: Event)
    ensures
        next(LoopState::Stopped, refresh_ms, event).0 == LoopState::Stopped,
{
}

/// A running monitor stops exactly when the scan failed or the wait ended
/// with the key to quit; only a failed scan aborts.
pub proof fn runs_until_quit_or_failure(refresh_ms: u64, event: Event)
    ensures
        next(LoopState::Running, refresh_ms, event).0 == LoopState::Stopped <==> (event
            == Event::ScanFailed || (event matches Event::Waited { input, .. } && input
            == Input::Key(QUIT_KEY))),
        next(LoopState::Running, refresh_ms, event).1 == Action::Abort <==> event
            == Event::ScanFailed,
{
}

/// The wait for a key and the idle time after it never last beyond the
/// interval: each is what is left of it when it begins.
pub proof fn waits_within_the_interval(refresh_ms: u64, input: Input, elapsed_nanos: u128)
    ensures
        next(LoopState::Running, refresh_ms, Event::Drawn { elapsed_nanos }) == (
            LoopState::Running,
            Action::Wait { nanos: idle_of(refresh_ms, elapsed_nanos) as u128 },
        ),
        !is_quit(input) ==> next(
            LoopState::Running,
            refresh_ms,
            Event::Waited { input, elapsed_nanos },
        ) == (LoopState::Running, Action::Idle { nanos: idle_of(refresh_ms, elapsed_nanos) as u128 }),
        elapsed_nanos + idle_of(refresh_ms, elapsed_nanos) <= vstd::math::max(
            elapsed_nanos as int,
            refresh_ms * NANOS_PER_MILLI,
        ),
{
}

/// The idle time fills the interval and never exceeds it: a cycle that
/// took less than the interval lasts the interval with its idle time, a
/// longer one idles not at all.
pub proof fn idle_fills_the_interval(refresh_ms: u64, elapsed_nanos: u128)
    ensures
        0 <= idle_of(refresh_ms, elapsed_nanos) <= refresh_ms * NANOS_PER_MILLI,
        elapsed_nanos + idle_of(refresh_ms, elapsed_nanos) >= refresh_ms * NANOS_PER_MILLI,
        elapsed_nanos < refresh_ms * NANOS_PER_MILLI ==> elapsed_nanos + idle_of(
            refresh_ms,
            elapsed_nanos,
        ) == refresh_ms * NANOS_PER_MILLI,
        elapsed_nanos >= refresh_ms * NANOS_PER_MILLI ==> idle_of(refresh_ms, elapsed_nanos) == 0,
{
}

/// What is shown of a rate below 2 to the power 53 millionths is nearest
/// twice over: the double `m` divided by 2 to the power `k` lies no further
/// from the rate than half the step between two doubles, and the tenth no
/// further from that double than half a tenth.
pub proof fn shown_rate_is_nearest(r: Rate)
    requires
        r.millionths < 0x20_0000_0000_0000,
    ensures
        ({
            let (m, k) = rate_double(r);
            let t = tenths(r);
            &&& 2 * (m * 1_000_000 - r.millionths * pow2(k)) <= 1_000_000
            &&& 2 * (r.millionths * pow2(k) - m * 1_000_000) <= 1_000_000
            &&& 2 * (t * pow2(k) - 10 * m) <= pow2(k)
            &&& 2 * (10 * m - t * pow2(k)) <= pow2(k)
            &&& 0 <= t
        }),
{
    let (m, k) = rate_double(r);
    small_numbers_are_exact(r.millionths as nat);
    pow2_is_positive(k);
    assert(r.millionths * pow2(k) >= 0) by (nonlinear_arith)
        requires
            r.millionths >= 0,
            pow2(k) >= 1,
    ;
    rounding_stays_close((r.millionths * pow2(k)) as int, 1_000_000);
    rounding_stays_close((10 * m) as int, pow2(k) as int);
}

// ---------------------------------------------------------------------------
// One cycle
// ---------------------------------------------------------------------------

/// One cycle of the monitor, from the list of processes to the table: the
/// scan, the analysis of exactly what the scan gave, and the rows of exactly
/// what the analysis gave, sorted by combined rate.
///
/// Without a list the cycle fails and the scanner is as it was. With one it
/// gives the analyzed records in the order shown, with their rows, and the
/// scanner has seen the processes the scan kept.
pub fn cycle(
    scanner: &mut ProcScanner,
    analyzer: &mut IoAnalyzer,
    listing: Option<Vec<Option<RawSample>>>,
) -> (out: Result<(Vec<AnalyzedProc>, Vec<Vec<String>>), CollectionError>)
    ensures
        final(scanner).filters() == old(scanner).filters(),
        listing is None ==> out is Err && out->Err_0 == CollectionError::ProcessList
            && final(scanner).seen() == old(scanner).seen(),
        listing is Some ==> {
            &&& out is Ok
            &&& final(scanner).seen() == seen_after(
                old(scanner).filters(),
                old(scanner).seen(),
                entry_views(listing->0@),
            )
            &&& exists|analyzed: Seq<AnalyzedProc>|
                #![auto]
                analyzed_views(analyzed) == analysis(
                    records_of(
                        old(scanner).filters(),
                        old(scanner).seen(),
                        entry_views(listing->0@),
                    ),
                ) && sorted_from(analyzed, (out->Ok_0).0@)
            &&& row_texts((out->Ok_0).1@) == rows_of((out->Ok_0).0@)
        },
{
    let records: Vec<ProcIo> = match scanner.snapshot(listing) {
        Ok(records) => records,
        Err(e) => {
            return Err(e);
        },
    };
    let mut procs = analyzer.evaluate(records);
    let rows = draw(&mut procs);
    Ok((procs, rows))
}

} // verus!
