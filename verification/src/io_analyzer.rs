//! The analyzer: from the bytes a process moved in a cycle to its rates and
//! its impact.
//!
//! Rates are decimal megabytes, held exactly: a [`Rate`] counts millionths of
//! a megabyte, so that one byte is one millionth and no rounding takes
//! place. The impact of a process depends on the sum of its two rates alone.

use crate::proc_scanner::{ProcIo, ProcIoView};
use vstd::prelude::*;

verus! {

/// How hard a process works the disks.
#[derive(Debug, Clone, Copy, PartialEq, Eq, Structural)]
pub enum Impact {
    Low,
    Medium,
    High,
}

/// The number of bytes in a megabyte.
pub const BYTES_PER_MEGABYTE: u64 = 1_000_000;

/// A combined rate above this many millionths of a megabyte (5.0 MB) is at
/// least of medium impact.
pub const MEDIUM_ABOVE: u64 = 5_000_000;

/// A combined rate above this many millionths of a megabyte (50.0 MB) is of
/// high impact.
pub const HIGH_ABOVE: u64 = 50_000_000;

/// A throughput in megabytes per cycle, as a count of millionths of a
/// megabyte.
#[derive(Debug, Clone, Copy, PartialEq, Eq, Structural)]
pub struct Rate {
    pub millionths: u64,
}

impl Rate {
    /// The whole megabytes of the rate.
    pub open spec fn whole(self) -> int {
        self.millionths as int / 1_000_000
    }

    /// What the rate holds beyond its whole megabytes, in millionths.
    pub open spec fn fraction(self) -> int {
        self.millionths as int % 1_000_000
    }

    /// The rate at which `bytes` bytes move in one cycle: `bytes` divided by
    /// the bytes in a megabyte.
    pub open spec fn of_bytes(bytes: u64) -> Rate {
        Rate { millionths: bytes }
    }

    /// The rate at which `bytes` bytes move in one cycle.
    pub fn from_bytes(bytes: u64) -> (rate: Rate)
        ensures
            rate == Rate::of_bytes(bytes),
            rate.whole() == bytes as int / BYTES_PER_MEGABYTE as int,
            rate.fraction() == bytes as int % BYTES_PER_MEGABYTE as int,
            rate.whole() * BYTES_PER_MEGABYTE + rate.fraction() == bytes,
    {
        Rate { millionths: bytes }
    }

    /// The whole megabytes of the rate.
    pub fn whole_megabytes(self) -> (mb: u64)
        ensures
            mb == self.whole(),
    {
        self.millionths / BYTES_PER_MEGABYTE
    }
}

/// The impact of a process whose read and write rates add up to `total`
/// millionths of a megabyte. The bounds themselves belong to the lower
/// class.
pub open spec fn impact_of(total: int) -> Impact {
    if total > HIGH_ABOVE {
        Impact::High
    } else if total > MEDIUM_ABOVE {
        Impact::Medium
    } else {
        Impact::Low
    }
}

/// The impact of a process that reads at `read` and writes at `write`.
pub fn classify(read: Rate, write: Rate) -> (impact: Impact)
    ensures
        impact == impact_of(read.millionths + write.millionths),
{
    let total: u128 = read.millionths as u128 + write.millionths as u128;
    if total > HIGH_ABOVE as u128 {
        Impact::High
    } else if total > MEDIUM_ABOVE as u128 {
        Impact::Medium
    } else {
        Impact::Low
    }
}

/// One process with its rates and its impact.
#[derive(Debug, Clone)]
pub struct AnalyzedProc {
    pub pid: i32,
    pub cmd: String,
    pub read_per_s: Rate,
    pub write_per_s: Rate,
    pub impact: Impact,
}

/// What an [`AnalyzedProc`] holds.
pub struct AnalyzedView {
    pub pid: i32,
    pub cmd: Seq<char>,
    pub read_per_s: Rate,
    pub write_per_s: Rate,
    pub impact: Impact,
}

impl View for AnalyzedProc {
    type V = AnalyzedView;

    open spec fn view(&self) -> AnalyzedView {
        AnalyzedView {
            pid: self.pid,
            cmd: self.cmd@,
            read_per_s: self.read_per_s,
            write_per_s: self.write_per_s,
            impact: self.impact,
        }
    }
}

impl AnalyzedProc {
    /// The sum of the two rates, in millionths of a megabyte.
    pub open spec fn combined(self) -> int {
        self.read_per_s.millionths + self.write_per_s.millionths
    }

    /// The sum of the two rates, in millionths of a megabyte.
    pub fn combined_rate(&self) -> (total: u128)
        ensures
            total == self.combined(),
    {
        self.read_per_s.millionths as u128 + self.write_per_s.millionths as u128
    }
}

/// What each analyzed record holds.
pub open spec fn analyzed_views(records: Seq<AnalyzedProc>) -> Seq<AnalyzedView> {
    Seq::new(records.len(), |i: int| records[i]@)
}

/// The analysis of one record: its bytes as rates, and the impact of their
/// sum.
pub open spec fn analysis_of(r: ProcIoView) -> AnalyzedView {
    AnalyzedView {
        pid: r.pid,
        cmd: r.cmd,
        read_per_s: Rate::of_bytes(r.read_bytes),
        write_per_s: Rate::of_bytes(r.write_bytes),
        impact: impact_of(r.read_bytes + r.write_bytes),
    }
}

/// The analysis of each record, in the records' order.
pub open spec fn analysis(records: Seq<ProcIoView>) -> Seq<AnalyzedView> {
    Seq::new(records.len(), |i: int| analysis_of(records[i]))
}

/// Turns the records of a cycle into rates and impacts. It holds no state.
pub struct IoAnalyzer;

impl Default for IoAnalyzer {
    fn default() -> (analyzer: IoAnalyzer)
        ensures
            analyzer == IoAnalyzer,
    {
        IoAnalyzer
    }
}

impl IoAnalyzer {
    /// The analysis of one record.
    pub fn analyze(record: ProcIo) -> (out: AnalyzedProc)
        ensures
            out@ == analysis_of(record@),
    {
        let read = Rate::from_bytes(record.read_bytes);
        let write = Rate::from_bytes(record.write_bytes);
        AnalyzedProc {
            pid: record.pid,
            cmd: record.cmd,
            read_per_s: read,
            write_per_s: write,
            impact: classify(read, write),
        }
    }

    /// The analysis of each record of a cycle: as many as it is given, in
    /// the same order.
    pub fn evaluate(&mut self, data: Vec<ProcIo>) -> (out: Vec<AnalyzedProc>)
        ensures
            out@.len() == data@.len(),
            analyzed_views(out@) == analysis(crate::proc_scanner::record_views(data@)),
    {
        let ghost records = crate::proc_scanner::record_views(data@);
        let mut out: Vec<AnalyzedProc> = Vec::new();
        for p in it: data
            invariant
                it.seq() == data@,
                records == crate::proc_scanner::record_views(data@),
                out@.len() == it.index(),
                analyzed_views(out@) == analysis(records.take(it.index())),
        {
            let ghost before = analyzed_views(out@);
            let a = IoAnalyzer::analyze(p);
            let ghost added = a@;
            out.push(a);
            assert(analyzed_views(out@) =~= before.push(added));
            assert(analysis(records.take(it.index() + 1)) =~= analysis(
                records.take(it.index()),
            ).push(analysis_of(records[it.index()])));
        }
        assert(records.take(data@.len() as int) =~= records);
        out
    }
}

/// The impact is high above 50 megabytes, medium above 5 up to 50, and low
/// up to 5: each bound belongs to the class below it.
pub proof fn impact_bounds(total: int)
    ensures
        impact_of(total) == Impact::High <==> total > 50_000_000,
        impact_of(total) == Impact::Medium <==> 5_000_000 < total <= 50_000_000,
        impact_of(total) == Impact::Low <==> total <= 5_000_000,
{
}

/// The impact depends on the sum of the two rates alone: records whose
/// bytes read and written add up to the same have the same impact.
pub proof fn impact_depends_on_the_sum(a: ProcIoView, b: ProcIoView)
    requires
        a.read_bytes + a.write_bytes == b.read_bytes + b.write_bytes,
    ensures
        analysis_of(a).impact == analysis_of(b).impact,
{
}

/// The impact of a record is the impact of the sum of its two rates.
pub proof fn impact_is_that_of_the_rates(r: ProcIoView)
    ensures
        analysis_of(r).impact == impact_of(
            analysis_of(r).read_per_s.millionths + analysis_of(r).write_per_s.millionths,
        ),
{
}

/// The analysis keeps the number and the order of the records, and each
/// record's identifier and command name.
pub proof fn analysis_is_one_to_one(records: Seq<ProcIoView>, i: int)
    requires
        0 <= i < records.len(),
    ensures
        analysis(records).len() == records.len(),
        analysis(records)[i] == analysis_of(records[i]),
        analysis(records)[i].pid == records[i].pid,
        analysis(records)[i].cmd == records[i].cmd,
{
}

} // verus!
