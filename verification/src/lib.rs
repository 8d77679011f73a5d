//! A per-process disk I/O monitor, as a verified core.
//!
//! Each polling cycle turns the cumulative read/write counters of the running
//! processes into per-cycle deltas ([`proc_scanner`]), rates and an impact
//! class ([`io_analyzer`]) and the rows of a table sorted by throughput
//! ([`tui`]); a rate is shown as the double-precision number nearest to it
//! ([`binary64`]). Reading the process list, drawing and waiting for a key are
//! left to the caller, which hands plain values in and takes plain values
//! back.

pub mod binary64;
pub mod io_analyzer;
pub mod proc_scanner;
pub mod text;
pub mod tui;
