//! The scanner: from the cumulative counters of the running processes to the
//! bytes each of them moved since the cycle before.
//!
//! The scanner keeps, for every process identifier it has reported, the
//! counters it saw last. A process seen for the first time is its own
//! baseline and reports nothing moved; a counter that went backwards reports
//! nothing moved either.

use crate::text::{
    chars_of, contains, fields, has_prefix, is_substring, lines, same_text, split_fields,
    split_lines, split_words, starts_with, texts, words,
};
use std::collections::HashMap;
use vstd::prelude::*;

verus! {

broadcast use vstd::std_specs::hash::group_hash_axioms;

/// One process as the system shows it in one cycle.
pub struct RawSample {
    pub pid: i32,
    pub cmd: String,
    /// Bytes read since the process started.
    pub read_bytes: u64,
    /// Bytes written since the process started.
    pub write_bytes: u64,
    /// The process's status text, with its `Uid:` line; empty where it
    /// could not be read. It is looked at only while a user filter is set.
    pub status: String,
}

/// What a [`RawSample`] holds.
pub struct SampleView {
    pub pid: i32,
    pub cmd: Seq<char>,
    pub read_bytes: u64,
    pub write_bytes: u64,
    pub status: Seq<char>,
}

impl View for RawSample {
    type V = SampleView;

    open spec fn view(&self) -> SampleView {
        SampleView {
            pid: self.pid,
            cmd: self.cmd@,
            read_bytes: self.read_bytes,
            write_bytes: self.write_bytes,
            status: self.status@,
        }
    }
}

/// The bytes one process moved in one cycle.
pub struct ProcIo {
    pub pid: i32,
    pub cmd: String,
    pub read_bytes: u64,
    pub write_bytes: u64,
}

/// What a [`ProcIo`] holds.
pub struct ProcIoView {
    pub pid: i32,
    pub cmd: Seq<char>,
    pub read_bytes: u64,
    pub write_bytes: u64,
}

impl View for ProcIo {
    type V = ProcIoView;

    open spec fn view(&self) -> ProcIoView {
        ProcIoView {
            pid: self.pid,
            cmd: self.cmd@,
            read_bytes: self.read_bytes,
            write_bytes: self.write_bytes,
        }
    }
}

/// Why a scan gave no records.
#[derive(Debug, Clone, Copy, PartialEq, Eq, Structural)]
pub enum CollectionError {
    /// The list of processes could not be had at all.
    ProcessList,
}

/// The counters last seen of each process identifier.
pub type Seen = Map<i32, (u64, u64)>;

/// The filters a scanner was made with.
pub struct Filters {
    /// The name of the one user whose processes are kept.
    pub user: Option<Seq<char>>,
    /// What the command name of a kept process contains.
    pub cmd: Option<Seq<char>>,
    /// The numeric identity of each known user name, as text.
    pub users: Map<Seq<char>, Seq<char>>,
}

/// What each entry of a listing holds; `None` for a process that could not
/// be read.
pub open spec fn entry_views(entries: Seq<Option<RawSample>>) -> Seq<Option<SampleView>> {
    Seq::new(
        entries.len(),
        |i: int|
            match entries[i] {
                Some(s) => Some(s@),
                None => None,
            },
    )
}

/// What each record holds.
pub open spec fn record_views(records: Seq<ProcIo>) -> Seq<ProcIoView> {
    Seq::new(records.len(), |i: int| records[i]@)
}

/// The text of an optional list of characters.
pub open spec fn opt_text(t: Option<Vec<char>>) -> Option<Seq<char>> {
    match t {
        Some(v) => Some(v@),
        None => None,
    }
}

/// The text of an optional string.
pub open spec fn opt_str(t: Option<String>) -> Option<Seq<char>> {
    match t {
        Some(s) => Some(s@),
        None => None,
    }
}

// ---------------------------------------------------------------------------
// The user database
// ---------------------------------------------------------------------------

/// The users that the lines of a user database name. A line of at least
/// three fields between colons gives its first field the identity in its
/// third; other lines are passed over; of two lines for one name the later
/// one holds.
pub open spec fn user_map_of_lines(ls: Seq<Seq<char>>) -> Map<Seq<char>, Seq<char>>
    decreases ls.len(),
{
    if ls.len() == 0 {
        Map::empty()
    } else {
        let before = user_map_of_lines(ls.drop_last());
        let f = fields(ls.last(), ':');
        if f.len() >= 3 {
            before.insert(f[0], f[2])
        } else {
            before
        }
    }
}

/// The users that the text of a user database names.
pub open spec fn user_map(passwd: Seq<char>) -> Map<Seq<char>, Seq<char>> {
    user_map_of_lines(lines(passwd))
}

/// One user: a name and a numeric identity, as text.
struct UserEntry {
    name: Vec<char>,
    uid: Vec<char>,
}

/// The map that a list of entries stands for: a later entry replaces an
/// earlier one of the same name.
spec fn table_of(entries: Seq<UserEntry>) -> Map<Seq<char>, Seq<char>>
    decreases entries.len(),
{
    if entries.len() == 0 {
        Map::empty()
    } else {
        table_of(entries.drop_last()).insert(entries.last().name@, entries.last().uid@)
    }
}

/// The lookup table from user names to numeric identities. It is built once
/// and never changes.
pub struct UserTable {
    entries: Vec<UserEntry>,
}

impl View for UserTable {
    type V = Map<Seq<char>, Seq<char>>;

    closed spec fn view(&self) -> Map<Seq<char>, Seq<char>> {
        table_of(self.entries@)
    }
}

impl UserTable {
    /// The table that the text of a user database gives.
    pub fn parse(passwd: &str) -> (table: UserTable)
        ensures
            table@ == user_map(passwd@),
    {
        let text = chars_of(passwd);
        let ls = split_lines(&text);
        let mut entries: Vec<UserEntry> = Vec::new();
        let mut i: usize = 0;
        assert(texts(ls@).take(0) =~= Seq::empty());
        while i < ls.len()
            invariant
                i <= ls.len(),
                table_of(entries@) == user_map_of_lines(texts(ls@).take(i as int)),
            decreases ls.len() - i,
        {
            let mut f = split_fields(&ls[i], ':');
            proof {
                let upto = texts(ls@).take(i + 1);
                assert(upto.drop_last() =~= texts(ls@).take(i as int));
                assert(upto.last() == ls@[i as int]@);
            }
            if f.len() >= 3 {
                let ghost all = texts(f@);
                let uid = f.swap_remove(2);
                let name = f.swap_remove(0);
                assert(name@ == all[0] && uid@ == all[2]);
                let ghost before = entries@;
                entries.push(UserEntry { name, uid });
                assert(entries@.drop_last() =~= before);
            }
            i += 1;
        }
        assert(texts(ls@).take(ls.len() as int) =~= texts(ls@));
        UserTable { entries }
    }

    /// The identity of the user `name`, if the table knows the name.
    pub fn get(&self, name: &Vec<char>) -> (uid: Option<&Vec<char>>)
        ensures
            match uid {
                Some(u) => self@.contains_key(name@) && self@[name@] == u@,
                None => !self@.contains_key(name@),
            },
    {
        let mut k: usize = self.entries.len();
        assert(self.entries@.take(k as int) =~= self.entries@);
        while k > 0
            invariant
                k <= self.entries.len(),
                self@.contains_key(name@) == table_of(self.entries@.take(k as int)).contains_key(
                    name@,
                ),
                self@.contains_key(name@) ==> self@[name@] == table_of(
                    self.entries@.take(k as int),
                )[name@],
            decreases k,
        {
            proof {
                let upto = self.entries@.take(k as int);
                assert(upto.drop_last() =~= self.entries@.take(k - 1));
                assert(upto.last() == self.entries@[k - 1]);
            }
            k -= 1;
            if same_text(&self.entries[k].name, name) {
                return Some(&self.entries[k].uid);
            }
        }
        None
    }
}

// ---------------------------------------------------------------------------
// The identity of a process
// ---------------------------------------------------------------------------

/// What the line of a status text that names the process's identities begins
/// with.
pub open spec fn uid_tag() -> Seq<char> {
    seq!['U', 'i', 'd', ':']
}

/// The second word of the first of `ls` that begins with [`uid_tag`]; none
/// where no line begins so, and where that line has a single word. Lines
/// after the first that begins so are not looked at.
pub open spec fn uid_of_lines(ls: Seq<Seq<char>>) -> Option<Seq<char>>
    decreases ls.len(),
{
    if ls.len() == 0 {
        None
    } else if starts_with(ls[0], uid_tag()) {
        let w = words(ls[0]);
        if w.len() >= 2 {
            Some(w[1])
        } else {
            None
        }
    } else {
        uid_of_lines(ls.skip(1))
    }
}

/// The numeric identity, as text, under which the process with the status
/// text `status` runs; none where the text does not tell.
pub open spec fn real_uid(status: Seq<char>) -> Option<Seq<char>> {
    uid_of_lines(lines(status))
}

/// The identity that a status text names, if it names one.
pub fn parse_uid(status: &Vec<char>) -> (uid: Option<Vec<char>>)
    ensures
        opt_text(uid) == real_uid(status@),
{
    let ls = split_lines(status);
    let tag: Vec<char> = vec!['U', 'i', 'd', ':'];
    assert(tag@ =~= uid_tag());
    let mut i: usize = 0;
    assert(texts(ls@).skip(0) =~= texts(ls@));
    while i < ls.len()
        invariant
            i <= ls.len(),
            tag@ == uid_tag(),
            texts(ls@) == lines(status@),
            uid_of_lines(texts(ls@).skip(i as int)) == real_uid(status@),
        decreases ls.len() - i,
    {
        proof {
            let rest = texts(ls@).skip(i as int);
            assert(rest[0] == ls@[i as int]@);
            assert(rest.skip(1) =~= texts(ls@).skip(i + 1));
        }
        if has_prefix(&ls[i], &tag) {
            let mut w = split_words(&ls[i]);
            if w.len() >= 2 {
                return Some(w.swap_remove(1));
            } else {
                return None;
            }
        }
        i += 1;
    }
    None
}

// ---------------------------------------------------------------------------
// Filters and deltas
// ---------------------------------------------------------------------------

/// The user filter lets a process through: there is none, or the filter's
/// user is known and the process's status text names that user's identity,
/// character for character. A status text that names no identity lets no
/// process through, whatever the user database holds.
pub open spec fn user_ok(f: Filters, status: Seq<char>) -> bool {
    match f.user {
        None => true,
        Some(name) => f.users.contains_key(name) && real_uid(status) == Some(f.users[name]),
    }
}

/// The filters look at the status text: a user filter is set and its user is
/// known.
pub open spec fn reads_status(f: Filters) -> bool {
    f.user is Some && f.users.contains_key(f.user->0)
}

/// The name filter lets a process through: there is none, or the command
/// name contains the filter's text.
pub open spec fn cmd_ok(f: Filters, cmd: Seq<char>) -> bool {
    match f.cmd {
        None => true,
        Some(part) => is_substring(cmd, part),
    }
}

/// Both filters let the process through.
pub open spec fn keeps(f: Filters, s: SampleView) -> bool {
    user_ok(f, s.status) && cmd_ok(f, s.cmd)
}

/// How far a counter moved from `prev` to `curr`; 0 where it went backwards.
pub open spec fn delta(prev: u64, curr: u64) -> u64 {
    if curr >= prev {
        (curr - prev) as u64
    } else {
        0
    }
}

/// The counters that the sample is measured against: those last seen of its
/// identifier, or its own where the identifier is new.
pub open spec fn baseline(seen: Seen, s: SampleView) -> (u64, u64) {
    if seen.contains_key(s.pid) {
        seen[s.pid]
    } else {
        (s.read_bytes, s.write_bytes)
    }
}

/// The record that a kept sample gives.
pub open spec fn record_of(seen: Seen, s: SampleView) -> ProcIoView {
    ProcIoView {
        pid: s.pid,
        cmd: s.cmd,
        read_bytes: delta(baseline(seen, s).0, s.read_bytes),
        write_bytes: delta(baseline(seen, s).1, s.write_bytes),
    }
}

/// What is seen once a kept sample is recorded: its counters replace those
/// of its identifier.
pub open spec fn observe(seen: Seen, s: SampleView) -> Seen {
    seen.insert(s.pid, (s.read_bytes, s.write_bytes))
}

/// What is seen after a listing: each readable entry that the filters keep
/// is recorded, in order; the others leave no trace.
pub open spec fn seen_after(f: Filters, seen: Seen, entries: Seq<Option<SampleView>>) -> Seen
    decreases entries.len(),
{
    if entries.len() == 0 {
        seen
    } else {
        let before = seen_after(f, seen, entries.drop_last());
        match entries.last() {
            Some(s) => if keeps(f, s) {
                observe(before, s)
            } else {
                before
            },
            None => before,
        }
    }
}

/// The records of a listing: one for each readable entry that the filters
/// keep, in the listing's order, each measured against what was seen just
/// before it.
pub open spec fn records_of(f: Filters, seen: Seen, entries: Seq<Option<SampleView>>) -> Seq<
    ProcIoView,
>
    decreases entries.len(),
{
    if entries.len() == 0 {
        Seq::empty()
    } else {
        let records = records_of(f, seen, entries.drop_last());
        match entries.last() {
            Some(s) => if keeps(f, s) {
                records.push(record_of(seen_after(f, seen, entries.drop_last()), s))
            } else {
                records
            },
            None => records,
        }
    }
}

/// Samples processes cycle after cycle.
pub struct ProcScanner {
    last_snapshot: HashMap<i32, (u64, u64)>,
    user_filter: Option<Vec<char>>,
    cmd_filter: Option<Vec<char>>,
    user_uids: UserTable,
}

impl ProcScanner {
    /// The counters last seen of each process identifier.
    pub closed spec fn seen(&self) -> Seen {
        self.last_snapshot@
    }

    /// The filters the scanner was made with.
    pub closed spec fn filters(&self) -> Filters {
        Filters {
            user: opt_text(self.user_filter),
            cmd: opt_text(self.cmd_filter),
            users: self.user_uids@,
        }
    }

    /// A scanner that has seen nothing. `passwd` is the text of the user
    /// database, from which the user filter's name is resolved.
    pub fn new(user_filter: Option<String>, cmd_filter: Option<String>, passwd: &str) -> (scanner:
        ProcScanner)
        ensures
            scanner.seen() == Map::<i32, (u64, u64)>::empty(),
            scanner.filters() == (Filters {
                user: opt_str(user_filter),
                cmd: opt_str(cmd_filter),
                users: user_map(passwd@),
            }),
    {
        let user = match &user_filter {
            Some(s) => Some(chars_of(s.as_str())),
            None => None,
        };
        let cmd = match &cmd_filter {
            Some(s) => Some(chars_of(s.as_str())),
            None => None,
        };
        ProcScanner {
            last_snapshot: HashMap::new(),
            user_filter: user,
            cmd_filter: cmd,
            user_uids: UserTable::parse(passwd),
        }
    }

    /// Whether a scan reads the status text of its samples: it does while a
    /// user filter is set whose user is known. Without one the text may be
    /// left empty.
    pub fn needs_status(&self) -> (needed: bool)
        ensures
            needed == reads_status(self.filters()),
    {
        match &self.user_filter {
            Some(name) => self.user_uids.get(name).is_some(),
            None => false,
        }
    }

    /// Whether the filters let the process through.
    pub fn accepts(&self, sample: &RawSample) -> (kept: bool)
        ensures
            kept == keeps(self.filters(), sample@),
    {
        match &self.user_filter {
            Some(name) => {
                match self.user_uids.get(name) {
                    Some(expected) => {
                        let status = chars_of(sample.status.as_str());
                        match parse_uid(&status) {
                            Some(uid) => {
                                if !same_text(&uid, expected) {
                                    return false;
                                }
                            },
                            None => {
                                return false;
                            },
                        }
                    },
                    None => {
                        return false;
                    },
                }
            },
            None => {},
        }
        match &self.cmd_filter {
            Some(part) => {
                let cmd = chars_of(sample.cmd.as_str());
                contains(&cmd, part)
            },
            None => true,
        }
    }

    /// The counters last seen of `pid`, if it was ever reported.
    pub fn last_seen(&self, pid: i32) -> (counters: Option<(u64, u64)>)
        ensures
            counters == if self.seen().contains_key(pid) {
                Some(self.seen()[pid])
            } else {
                None
            },
    {
        match self.last_snapshot.get(&pid) {
            Some(c) => Some(*c),
            None => None,
        }
    }

    /// Records one kept sample: measures it against what was seen of its
    /// identifier and remembers its counters.
    fn record(&mut self, sample: RawSample) -> (rec: ProcIo)
        ensures
            final(self).filters() == old(self).filters(),
            final(self).seen() == observe(old(self).seen(), sample@),
            rec@ == record_of(old(self).seen(), sample@),
    {
        let read = sample.read_bytes;
        let write = sample.write_bytes;
        let (last_r, last_w) = match self.last_snapshot.get(&sample.pid) {
            Some(c) => *c,
            None => (read, write),
        };
        let delta_r = read.saturating_sub(last_r);
        let delta_w = write.saturating_sub(last_w);
        self.last_snapshot.insert(sample.pid, (read, write));
        ProcIo { pid: sample.pid, cmd: sample.cmd, read_bytes: delta_r, write_bytes: delta_w }
    }

    /// One cycle of the scanner. `listing` is the list of processes: `None`
    /// where it could not be had, and in it `None` for each process that
    /// could not be read.
    ///
    /// Without a list the scan fails and nothing changes. With one it gives a
    /// record for each readable process that the filters keep, in the
    /// list's order, and remembers the counters of those processes.
    /// Whatever was seen of other identifiers stays.
    pub fn snapshot(&mut self, listing: Option<Vec<Option<RawSample>>>) -> (out: Result<
        Vec<ProcIo>,
        CollectionError,
    >)
        ensures
            final(self).filters() == old(self).filters(),
            match listing {
                None => out == Err::<Vec<ProcIo>, CollectionError>(CollectionError::ProcessList)
                    && final(self).seen() == old(self).seen(),
                Some(entries) => {
                    &&& out is Ok
                    &&& record_views(out->Ok_0@) == records_of(
                        old(self).filters(),
                        old(self).seen(),
                        entry_views(entries@),
                    )
                    &&& final(self).seen() == seen_after(
                        old(self).filters(),
                        old(self).seen(),
                        entry_views(entries@),
                    )
                },
            },
    {
        let entries = match listing {
            Some(entries) => entries,
            None => {
                return Err(CollectionError::ProcessList);
            },
        };
        let ghost all = entry_views(entries@);
        let mut metrics: Vec<ProcIo> = Vec::new();
        assert(all.take(0) =~= Seq::empty());
        assert(record_views(metrics@) =~= Seq::empty());
        for entry in it: entries
            invariant
                it.seq() == entries@,
                all == entry_views(entries@),
                self.filters() == old(self).filters(),
                self.seen() == seen_after(
                    old(self).filters(),
                    old(self).seen(),
                    all.take(it.index()),
                ),
                record_views(metrics@) == records_of(
                    old(self).filters(),
                    old(self).seen(),
                    all.take(it.index()),
                ),
        {
            proof {
                let upto = all.take(it.index() + 1);
                assert(upto.drop_last() =~= all.take(it.index()));
                assert(upto.last() == all[it.index()]);
            }
            match entry {
                Some(sample) => {
                    if self.accepts(&sample) {
                        let ghost before = record_views(metrics@);
                        let rec = self.record(sample);
                        let ghost added = rec@;
                        metrics.push(rec);
                        assert(record_views(metrics@) =~= before.push(added));
                    }
                },
                None => {},
            }
        }
        assert(all.take(entries@.len() as int) =~= all);
        Ok(metrics)
    }
}

// ---------------------------------------------------------------------------
// What holds of every scan
// ---------------------------------------------------------------------------

/// A counter that went backwards, as after an identifier was given to a new
/// process, counts as not having moved.
pub proof fn rollback_gives_zero(prev: u64, curr: u64)
    requires
        curr < prev,
    ensures
        delta(prev, curr) == 0,
{
}

/// A counter that did not go backwards moved by the difference, and never
/// by more than it holds.
pub proof fn delta_is_the_difference(prev: u64, curr: u64)
    requires
        prev <= curr,
    ensures
        delta(prev, curr) == curr - prev,
        delta(prev, curr) <= curr,
{
}

/// A record of a known identifier whose counters lie below those last seen
/// reports nothing moved, each counter for itself.
pub proof fn record_after_rollback(seen: Seen, s: SampleView)
    requires
        seen.contains_key(s.pid),
    ensures
        s.read_bytes < seen[s.pid].0 ==> record_of(seen, s).read_bytes == 0,
        s.write_bytes < seen[s.pid].1 ==> record_of(seen, s).write_bytes == 0,
{
}

/// The record of an identifier that was never seen reports nothing moved,
/// whatever its counters hold.
pub proof fn first_sight_gives_zero(seen: Seen, s: SampleView)
    requires
        !seen.contains_key(s.pid),
    ensures
        record_of(seen, s).read_bytes == 0,
        record_of(seen, s).write_bytes == 0,
{
}

/// A listing of one readable process gives its record if the filters keep
/// it, and nothing otherwise.
pub proof fn scan_of_one(f: Filters, seen: Seen, s: SampleView)
    ensures
        keeps(f, s) ==> records_of(f, seen, seq![Some(s)]) == seq![record_of(seen, s)]
            && seen_after(f, seen, seq![Some(s)]) == observe(seen, s),
        !keeps(f, s) ==> records_of(f, seen, seq![Some(s)]) == Seq::<ProcIoView>::empty()
            && seen_after(f, seen, seq![Some(s)]) == seen,
{
    let one = seq![Some(s)];
    assert(one.drop_last() =~= Seq::<Option<SampleView>>::empty());
    assert(one.last() == Some(s));
    assert(seen_after(f, seen, one.drop_last()) == seen);
    assert(records_of(f, seen, one.drop_last()) =~= Seq::<ProcIoView>::empty());
    if keeps(f, s) {
        assert(records_of(f, seen, one) =~= seq![record_of(seen, s)]);
    }
}

/// A scan can be taken in parts: the scan of a listing is the scan of its
/// beginning followed by the scan of the rest, which starts from what was
/// seen after the beginning.
pub proof fn scan_in_parts(
    f: Filters,
    seen: Seen,
    first: Seq<Option<SampleView>>,
    rest: Seq<Option<SampleView>>,
)
    ensures
        seen_after(f, seen, first + rest) == seen_after(f, seen_after(f, seen, first), rest),
        records_of(f, seen, first + rest) == records_of(f, seen, first) + records_of(
            f,
            seen_after(f, seen, first),
            rest,
        ),
    decreases rest.len(),
{
    let mid = seen_after(f, seen, first);
    if rest.len() == 0 {
        assert(first + rest =~= first);
        assert(records_of(f, seen, first) + records_of(f, mid, rest) =~= records_of(
            f,
            seen,
            first,
        ));
    } else {
        let all = first + rest;
        assert(all.drop_last() =~= first + rest.drop_last());
        assert(all.last() == rest.last());
        scan_in_parts(f, seen, first, rest.drop_last());
        assert(records_of(f, seen, all) =~= records_of(f, seen, first) + records_of(f, mid, rest));
    }
}

/// Wherever in a listing an identifier is kept for the first time, never
/// seen before, its record reports nothing moved, whatever its counters
/// hold.
pub proof fn new_identifier_reports_zero(
    f: Filters,
    seen: Seen,
    before: Seq<Option<SampleView>>,
    s: SampleView,
)
    requires
        keeps(f, s),
        !seen.contains_key(s.pid),
        forall|j: int| !kept_at(f, before, j, s.pid),
    ensures
        records_of(f, seen, before.push(Some(s))) == records_of(f, seen, before).push(
            ProcIoView { pid: s.pid, cmd: s.cmd, read_bytes: 0, write_bytes: 0 },
        ),
{
    seen_is_untouched_without_kept(f, seen, before, s.pid);
    assert(before.push(Some(s)).drop_last() =~= before);
}

/// While the filter names a user that the user database does not know, no
/// process is kept: every scan is empty and leaves what was seen as it was.
pub proof fn unknown_user_keeps_nothing(
    f: Filters,
    seen: Seen,
    entries: Seq<Option<SampleView>>,
)
    requires
        f.user is Some,
        !f.users.contains_key(f.user->0),
    ensures
        records_of(f, seen, entries) == Seq::<ProcIoView>::empty(),
        seen_after(f, seen, entries) == seen,
    decreases entries.len(),
{
    if entries.len() > 0 {
        unknown_user_keeps_nothing(f, seen, entries.drop_last());
    }
}

/// While a user filter is set, a process whose status text names no
/// identity is not kept, whatever the user database holds.
pub proof fn status_without_identity_is_excluded(f: Filters, s: SampleView)
    requires
        f.user is Some,
        real_uid(s.status) is None,
    ensures
        !keeps(f, s),
{
}

/// Unless the filters look at the status text, what it holds changes
/// nothing.
pub proof fn status_unread_is_without_effect(f: Filters, s: SampleView, status: Seq<char>)
    requires
        !reads_status(f),
    ensures
        keeps(f, s) == keeps(
            f,
            SampleView {
                pid: s.pid,
                cmd: s.cmd,
                read_bytes: s.read_bytes,
                write_bytes: s.write_bytes,
                status: status,
            },
        ),
{
}

/// What was seen of an identifier is never forgotten: a scan only adds
/// identifiers.
pub proof fn seen_only_grows(f: Filters, seen: Seen, entries: Seq<Option<SampleView>>, pid: i32)
    requires
        seen.contains_key(pid),
    ensures
        seen_after(f, seen, entries).contains_key(pid),
    decreases entries.len(),
{
    if entries.len() > 0 {
        seen_only_grows(f, seen, entries.drop_last(), pid);
    }
}

/// The entry at `i` is a readable process `pid` that the filters keep.
pub open spec fn kept_at(f: Filters, entries: Seq<Option<SampleView>>, i: int, pid: i32) -> bool {
    &&& 0 <= i < entries.len()
    &&& entries[i] is Some
    &&& entries[i]->0.pid == pid
    &&& keeps(f, entries[i]->0)
}

/// After a scan, an identifier holds the counters of the last entry that
/// was kept for it.
pub proof fn seen_holds_the_last_kept(
    f: Filters,
    seen: Seen,
    entries: Seq<Option<SampleView>>,
    i: int,
    pid: i32,
)
    requires
        kept_at(f, entries, i, pid),
        forall|j: int| i < j < entries.len() ==> !kept_at(f, entries, j, pid),
    ensures
        seen_after(f, seen, entries).contains_key(pid),
        seen_after(f, seen, entries)[pid] == (
            entries[i]->0.read_bytes,
            entries[i]->0.write_bytes,
        ),
    decreases entries.len(),
{
    let rest = entries.drop_last();
    if i < entries.len() - 1 {
        assert forall|j: int| i < j < rest.len() implies !kept_at(f, rest, j, pid) by {
            assert(!kept_at(f, entries, j, pid));
        }
        seen_holds_the_last_kept(f, seen, rest, i, pid);
        assert(!kept_at(f, entries, entries.len() - 1, pid));
    }
}

/// An identifier for which the scan kept no entry has the counters it had,
/// or stays unknown: processes that have gone, that could not be read or
/// that the filters exclude leave no trace.
pub proof fn seen_is_untouched_without_kept(
    f: Filters,
    seen: Seen,
    entries: Seq<Option<SampleView>>,
    pid: i32,
)
    requires
        forall|j: int| !kept_at(f, entries, j, pid),
    ensures
        seen_after(f, seen, entries).contains_key(pid) == seen.contains_key(pid),
        seen.contains_key(pid) ==> seen_after(f, seen, entries)[pid] == seen[pid],
    decreases entries.len(),
{
    if entries.len() > 0 {
        let rest = entries.drop_last();
        assert forall|j: int| !kept_at(f, rest, j, pid) by {
            assert(!kept_at(f, entries, j, pid));
        }
        seen_is_untouched_without_kept(f, seen, rest, pid);
        assert(!kept_at(f, entries, entries.len() - 1, pid));
    }
}

/// A scan gives at most one record for each entry of the listing.
pub proof fn records_are_at_most_the_entries(
    f: Filters,
    seen: Seen,
    entries: Seq<Option<SampleView>>,
)
    ensures
        records_of(f, seen, entries).len() <= entries.len(),
    decreases entries.len(),
{
    if entries.len() > 0 {
        records_are_at_most_the_entries(f, seen, entries.drop_last());
    }
}

} // verus!
