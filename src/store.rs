use crate::command::{Command, CommandView};
use crate::error::KvsError;
use crate::index::{index_entries, index_get, index_insert, index_new, index_remove, index_snapshot};
use crate::log_pointer::LogPointer;
use crate::writer::LogWriter;
use crossbeam_skiplist::SkipMap;
use vstd::prelude::*;

verus! {

/// Once this many bytes of the log are garbage, the log is compacted.
pub const COMPACTION_THRESHOLD: u64 = 1024 * 1024;

/// One record that a visible log file holds: where it is and what it says.
pub struct LogEntry {
    pub pointer: LogPointer,
    pub command: CommandView,
}

/// The contents after one more command.
pub open spec fn apply_command(m: Map<Seq<char>, Seq<char>>, c: CommandView) -> Map<Seq<char>, Seq<char>> {
    match c {
        CommandView::Put { key, value } => m.insert(key, value),
        CommandView::Remove { key } => m.remove(key),
    }
}

/// The contents that a sequence of commands leaves, starting from nothing.
pub open spec fn replay(cmds: Seq<CommandView>) -> Map<Seq<char>, Seq<char>>
    decreases cmds.len(),
{
    if cmds.len() == 0 {
        Map::empty()
    } else {
        apply_command(replay(cmds.drop_last()), cmds.last())
    }
}

/// The commands of the log, in the order in which it is replayed.
pub open spec fn log_commands(log: Seq<LogEntry>) -> Seq<CommandView> {
    log.map_values(|e: LogEntry| e.command)
}

/// Record `a` ends before record `b` starts, in replay order.
pub open spec fn precedes(a: LogPointer, b: LogPointer) -> bool {
    a.generation < b.generation || (a.generation == b.generation && a.offset + a.length <= b.offset)
}

/// The record lies before the writer's tail.
pub open spec fn before_tail(p: LogPointer, w: LogWriter) -> bool {
    p.generation < w.generation || (p.generation == w.generation && p.offset + p.length
        <= w.current_position)
}

/// A record may be added at `p`: it starts at or after the writer's tail.
pub open spec fn at_or_after_tail(p: LogPointer, w: LogWriter) -> bool {
    p.generation > w.generation || (p.generation == w.generation && p.offset >= w.current_position)
}

/// The bytes of all the records of the log.
pub open spec fn total_bytes(log: Seq<LogEntry>) -> int
    decreases log.len(),
{
    if log.len() == 0 {
        0
    } else {
        total_bytes(log.drop_last()) + log.last().pointer.length
    }
}

/// The record is the one that the index points to for its key.
pub open spec fn is_live(e: LogEntry, idx: Map<Seq<char>, LogPointer>) -> bool {
    idx.contains_key(e.command.key()) && idx[e.command.key()] == e.pointer
}

/// The bytes of the records that the index points to for their keys.
pub open spec fn live_bytes(log: Seq<LogEntry>, idx: Map<Seq<char>, LogPointer>) -> int
    decreases log.len(),
{
    if log.len() == 0 {
        0
    } else {
        live_bytes(log.drop_last(), idx) + if is_live(log.last(), idx) {
            log.last().pointer.length as int
        } else {
            0
        }
    }
}

/// The bytes of the live records of key `k`.
spec fn key_live_bytes(log: Seq<LogEntry>, idx: Map<Seq<char>, LogPointer>, k: Seq<char>) -> int
    decreases log.len(),
{
    if log.len() == 0 {
        0
    } else {
        key_live_bytes(log.drop_last(), idx, k) + if log.last().command.key() == k && is_live(
            log.last(),
            idx,
        ) {
            log.last().pointer.length as int
        } else {
            0
        }
    }
}

spec fn distinct_pointers(log: Seq<LogEntry>) -> bool {
    forall|i: int, j: int| 0 <= i < j < log.len() ==> log[i].pointer != log[j].pointer
}

spec fn agree_off(a: Map<Seq<char>, LogPointer>, b: Map<Seq<char>, LogPointer>, k: Seq<char>) -> bool {
    forall|k2: Seq<char>|
        k2 != k ==> (a.contains_key(k2) == b.contains_key(k2) && (a.contains_key(k2) ==> a[k2]
            == b[k2]))
}

/// Two indexes that agree off `k` count the same bytes off `k`.
proof fn lemma_live_off_key(
    log: Seq<LogEntry>,
    a: Map<Seq<char>, LogPointer>,
    b: Map<Seq<char>, LogPointer>,
    k: Seq<char>,
)
    requires
        agree_off(a, b, k),
    ensures
        live_bytes(log, a) - key_live_bytes(log, a, k) == live_bytes(log, b) - key_live_bytes(log, b, k),
    decreases log.len(),
{
    if log.len() > 0 {
        lemma_live_off_key(log.drop_last(), a, b, k);
    }
}

/// No record of the log is at the index's place for `k`.
proof fn lemma_key_live_none(log: Seq<LogEntry>, idx: Map<Seq<char>, LogPointer>, k: Seq<char>)
    requires
        idx.contains_key(k) ==> forall|i: int| 0 <= i < log.len() ==> log[i].pointer != idx[k],
    ensures
        key_live_bytes(log, idx, k) == 0,
    decreases log.len(),
{
    if log.len() > 0 {
        lemma_key_live_none(log.drop_last(), idx, k);
    }
}

/// Exactly one record of the log is at the index's place for `k`.
proof fn lemma_key_live_single(log: Seq<LogEntry>, idx: Map<Seq<char>, LogPointer>, k: Seq<char>, n: int)
    requires
        distinct_pointers(log),
        idx.contains_key(k),
        0 <= n < log.len(),
        log[n].pointer == idx[k],
        log[n].command.key() == k,
    ensures
        key_live_bytes(log, idx, k) == idx[k].length,
    decreases log.len(),
{
    let rest = log.drop_last();
    if n == log.len() - 1 {
        lemma_key_live_none(rest, idx, k);
    } else {
        assert(log.last().pointer != log[n].pointer);
        lemma_key_live_single(rest, idx, k, n);
    }
}

/// When every record is live, all bytes are live.
proof fn lemma_all_live(log: Seq<LogEntry>, idx: Map<Seq<char>, LogPointer>)
    requires
        forall|i: int| 0 <= i < log.len() ==> is_live(#[trigger] log[i], idx),
    ensures
        live_bytes(log, idx) == total_bytes(log),
    decreases log.len(),
{
    if log.len() > 0 {
        lemma_all_live(log.drop_last(), idx);
    }
}

proof fn lemma_live_nonnegative(log: Seq<LogEntry>, idx: Map<Seq<char>, LogPointer>)
    ensures
        live_bytes(log, idx) >= 0,
    decreases log.len(),
{
    if log.len() > 0 {
        lemma_live_nonnegative(log.drop_last(), idx);
    }
}

/// Under an empty index nothing is live.
proof fn lemma_none_live(log: Seq<LogEntry>, idx: Map<Seq<char>, LogPointer>)
    requires
        idx.dom() == Set::<Seq<char>>::empty(),
    ensures
        live_bytes(log, idx) == 0,
    decreases log.len(),
{
    if log.len() > 0 {
        lemma_none_live(log.drop_last(), idx);
    }
}

/// Adding a record that is not live changes no count of live bytes.
proof fn lemma_live_push_dead(log: Seq<LogEntry>, idx: Map<Seq<char>, LogPointer>, e: LogEntry, k: Seq<char>)
    requires
        !is_live(e, idx),
    ensures
        live_bytes(log.push(e), idx) == live_bytes(log, idx),
        key_live_bytes(log.push(e), idx, k) == key_live_bytes(log, idx, k),
{
    assert(log.push(e).drop_last() =~= log);
}

/// Adding a record adds its length to the bytes of the log.
pub proof fn lemma_total_push(log: Seq<LogEntry>, e: LogEntry)
    ensures
        total_bytes(log.push(e)) == total_bytes(log) + e.pointer.length,
{
    assert(log.push(e).drop_last() =~= log);
}

/// The index after the record `c` at `p` is added.
pub open spec fn index_after(idx: Map<Seq<char>, LogPointer>, c: CommandView, p: LogPointer) -> Map<
    Seq<char>,
    LogPointer,
> {
    match c {
        CommandView::Put { key, .. } => idx.insert(key, p),
        CommandView::Remove { key } => idx.remove(key),
    }
}

/// How compaction rewrote the log: a new generation, and for each live record
/// its old and its new place, in the order of the new file.
pub struct CompactionPlan {
    pub generation: u64,
    pub moves: Vec<(LogPointer, LogPointer)>,
}

/// The state of the storage engine: the index from each live key to its latest
/// record, the tail of the log, the count of bytes that are garbage, and the
/// oldest generation that readers still consult.
///
/// The log itself lives in files that the caller reads and writes; this type
/// decides where each record goes and keeps a ghost model of what the files
/// hold.
pub struct KvStoreCore {
    index: SkipMap<String, LogPointer>,
    writer: LogWriter,
    uncompacted: u64,
    pitr: u64,
    pending: Option<PendingCompaction>,
    log: Ghost<Seq<LogEntry>>,
    contents: Ghost<Map<Seq<char>, Seq<char>>>,
}

/// A planned compaction: the generation it writes, and for each live key its
/// record's old and new place.
struct PendingCompaction {
    generation: u64,
    keys: Vec<String>,
    moves: Vec<(LogPointer, LogPointer)>,
}

spec fn key_views(keys: Seq<String>) -> Seq<Seq<char>> {
    keys.map_values(|s: String| s@)
}

/// The log that a compaction writes: a `Put` of each key with its value, at
/// its new place.
spec fn plan_log(
    keys: Seq<Seq<char>>,
    moves: Seq<(LogPointer, LogPointer)>,
    contents: Map<Seq<char>, Seq<char>>,
) -> Seq<LogEntry> {
    Seq::new(
        moves.len(),
        |i: int|
            LogEntry {
                pointer: moves[i].1,
                command: CommandView::Put { key: keys[i], value: contents[keys[i]] },
            },
    )
}

impl KvStoreCore {
    /// The live key/value pairs.
    pub closed spec fn contents(&self) -> Map<Seq<char>, Seq<char>> {
        self.contents@
    }

    /// The records of the visible log files, in replay order.
    pub closed spec fn log(&self) -> Seq<LogEntry> {
        self.log@
    }

    /// The index: each live key and the place of its latest record.
    pub closed spec fn index(&self) -> Map<Seq<char>, LogPointer> {
        index_entries(self.index)
    }

    pub closed spec fn tail(&self) -> LogWriter {
        self.writer
    }

    pub closed spec fn garbage(&self) -> u64 {
        self.uncompacted
    }

    pub closed spec fn watermark(&self) -> u64 {
        self.pitr
    }

    /// The bytes that become garbage when `c`, `length` bytes long, is added:
    /// the key's previous record, and a removal record itself.
    pub open spec fn newly_garbage(&self, c: CommandView, length: u64) -> int {
        let previous = if self.index().contains_key(c.key()) {
            self.index()[c.key()].length as int
        } else {
            0
        };
        match c {
            CommandView::Put { .. } => previous,
            CommandView::Remove { .. } => previous + length,
        }
    }

    /// The plan rewrites every live record, each once, one after another from
    /// the start of the generation after the tail's.
    closed spec fn valid_pending(&self, pc: PendingCompaction) -> bool {
        let idx = index_entries(self.index);
        let ks = key_views(pc.keys@);
        let ms = pc.moves@;
        &&& ks.len() == ms.len()
        &&& self.writer.generation + 2 <= u64::MAX
        &&& pc.generation == self.writer.generation + 1
        &&& forall|i: int|
            0 <= i < ms.len() ==> idx.contains_key(#[trigger] ks[i]) && idx[ks[i]] == ms[i].0
                && ms[i].1.generation == pc.generation && ms[i].1.length == ms[i].0.length
                && ms[i].1.offset + ms[i].1.length <= u64::MAX
        &&& forall|i: int, j: int| 0 <= i < j < ms.len() ==> #[trigger] ks[i] != #[trigger] ks[j]
        &&& forall|i: int, j: int|
            0 <= i < j < ms.len() ==> #[trigger] ms[i].1.offset + ms[i].1.length <= #[trigger] ms[j].1.offset
        &&& forall|k: Seq<char>| idx.contains_key(k) ==> exists|i: int| 0 <= i < ks.len() && #[trigger] ks[i] == k
        &&& replay(log_commands(plan_log(ks, ms, self.contents@))) == self.contents@
        &&& total_bytes(plan_log(ks, ms, self.contents@)) == live_bytes(self.log@, idx)
    }

    pub closed spec fn wf(&self) -> bool {
        let log = self.log@;
        let idx = index_entries(self.index);
        &&& idx.dom() == self.contents@.dom()
        &&& forall|k: Seq<char>|
            #[trigger] idx.contains_key(k) ==> log.contains(
                LogEntry {
                    pointer: idx[k],
                    command: CommandView::Put { key: k, value: self.contents@[k] },
                },
            )
        &&& replay(log_commands(log)) == self.contents@
        &&& forall|i: int, j: int|
            0 <= i < j < log.len() ==> precedes(#[trigger] log[i].pointer, #[trigger] log[j].pointer)
        &&& forall|i: int|
            0 <= i < log.len() ==> before_tail(#[trigger] log[i].pointer, self.writer)
                && log[i].pointer.length > 0 && log[i].pointer.generation >= self.pitr
        &&& self.pitr <= self.writer.generation
        &&& self.uncompacted + live_bytes(log, idx) == total_bytes(log)
        &&& match self.pending {
            Some(pc) => self.valid_pending(pc),
            None => true,
        }
    }

    /// The index holds exactly the live keys.
    pub proof fn lemma_index_keys_are_live_keys(&self)
        requires
            self.wf(),
        ensures
            self.index().dom() == self.contents().dom(),
    {
    }

    /// The contents are what replaying the log gives.
    pub proof fn lemma_contents_are_replayed_log(&self)
        requires
            self.wf(),
        ensures
            self.contents() == replay(log_commands(self.log())),
    {
    }

    /// Every entry of the index points to a record of the log that is a `Put`
    /// of that key, with the key's current value.
    pub proof fn lemma_index_points_to_puts(&self, k: Seq<char>)
        requires
            self.wf(),
            self.index().contains_key(k),
        ensures
            self.contents().contains_key(k),
            self.log().contains(
                (LogEntry {
                    pointer: self.index()[k],
                    command: CommandView::Put { key: k, value: self.contents()[k] },
                }),
            ),
    {
    }

    /// The garbage count is the bytes of all log files less the bytes of the
    /// records that the index points to.
    pub proof fn lemma_uncompacted_accounting(&self)
        requires
            self.wf(),
        ensures
            self.garbage() + live_bytes(self.log(), self.index()) == total_bytes(self.log()),
            self.garbage() <= total_bytes(self.log()),
    {
        lemma_live_nonnegative(self.log(), self.index());
    }

    /// Distinct records of the log never overlap.
    pub proof fn lemma_records_disjoint(&self, i: int, j: int)
        requires
            self.wf(),
            0 <= i < j < self.log().len(),
        ensures
            precedes(self.log()[i].pointer, self.log()[j].pointer),
            self.log()[i].pointer != self.log()[j].pointer,
    {
        assert(self.log@[j].pointer.length > 0);
    }

    /// An empty store whose tail is the start of generation 0; records already
    /// on disk are then added with `load_record`.
    pub fn new() -> (r: KvStoreCore)
        ensures
            r.wf(),
            r.contents() == Map::<Seq<char>, Seq<char>>::empty(),
            r.log() == Seq::<LogEntry>::empty(),
            r.index() == Map::<Seq<char>, LogPointer>::empty(),
            r.tail() == (LogWriter { generation: 0, current_position: 0 }),
            r.garbage() == 0,
            r.watermark() == 0,
    {
        let r = KvStoreCore {
            index: index_new(),
            writer: LogWriter::new(0),
            uncompacted: 0,
            pitr: 0,
            pending: None,
            log: Ghost(Seq::empty()),
            contents: Ghost(Map::empty()),
        };
        proof {
            assert(log_commands(r.log@) =~= Seq::<CommandView>::empty());
            assert(r.contents@ =~= Map::<Seq<char>, Seq<char>>::empty());
            assert(index_entries(r.index) =~= Map::<Seq<char>, LogPointer>::empty());
        }
        r
    }

    /// The writer's tail: where the next record goes.
    pub fn writer(&self) -> (r: LogWriter)
        ensures
            r == self.tail(),
    {
        self.writer
    }

    /// The number of bytes of the log that no live key points to.
    pub fn uncompacted(&self) -> (r: u64)
        ensures
            r == self.garbage(),
    {
        self.uncompacted
    }

    /// The oldest generation that readers still consult.
    pub fn pitr(&self) -> (r: u64)
        ensures
            r == self.watermark(),
    {
        self.pitr
    }

    /// Whether enough of the log is garbage that it should be compacted.
    pub fn needs_compaction(&self) -> (r: bool)
        ensures
            r == (self.garbage() > COMPACTION_THRESHOLD),
    {
        self.uncompacted > COMPACTION_THRESHOLD
    }

    /// The place of the latest record of `key`, which is a `Put` of its value.
    pub fn lookup(&self, key: &String) -> (r: Option<LogPointer>)
        requires
            self.wf(),
        ensures
            r.is_some() == self.contents().contains_key(key@),
            r.is_some() ==> r.unwrap() == self.index()[key@],
            r.is_some() ==> self.log().contains(
                LogEntry {
                    pointer: r.unwrap(),
                    command: CommandView::Put { key: key@, value: self.contents()[key@] },
                },
            ),
    {
        index_get(&self.index, key)
    }

    /// Succeeds exactly when `key` is live; a removal needs that.
    pub fn check_present(&self, key: &String) -> (r: Result<(), KvsError>)
        requires
            self.wf(),
        ensures
            r.is_ok() == self.contents().contains_key(key@),
            r.is_err() ==> r == Err::<(), KvsError>(KvsError::KeyNotFound),
    {
        match index_get(&self.index, key) {
            Some(_) => Ok(()),
            None => Err(KvsError::KeyNotFound),
        }
    }

    /// Adds a record found on disk while the store is opened. Records must come
    /// in replay order: by generation, then by offset, each starting at or after
    /// the end of the one before.
    pub fn load_record(&mut self, pointer: LogPointer, command: &Command) -> (r: Result<(), KvsError>)
        requires
            old(self).wf(),
        ensures
            final(self).wf(),
            r.is_ok() == (at_or_after_tail(pointer, old(self).tail()) && pointer.length > 0
                && pointer.offset + pointer.length <= u64::MAX && old(self).garbage()
                + old(self).newly_garbage(command@, pointer.length) <= u64::MAX),
            r.is_ok() ==> final(self).contents() == apply_command(old(self).contents(), command@)
                && final(self).log() == old(self).log().push(
                (LogEntry { pointer: pointer, command: command@ }),
            ) && final(self).garbage() == old(self).garbage() + old(self).newly_garbage(
                command@,
                pointer.length,
            ) && final(self).index() == index_after(old(self).index(), command@, pointer)
                && final(self).tail() == (LogWriter {
                generation: pointer.generation,
                current_position: (pointer.offset + pointer.length) as u64,
            }) && final(self).watermark() == old(self).watermark() && final(self).pending_plan() is None,
            r.is_err() ==> *final(self) == *old(self),
    {
        let w = self.writer;
        let in_order = pointer.generation > w.generation || (pointer.generation == w.generation
            && pointer.offset >= w.current_position);
        if !in_order || pointer.length == 0 || pointer.offset > u64::MAX - pointer.length {
            return Err(KvsError::Serialization(String::from_str("log record out of order")));
        }
        match self.add_record(pointer, command) {
            Ok(_) => Ok(()),
            Err(e) => Err(e),
        }
    }

    /// Where a record of `length` bytes written now would go, and whether
    /// `write_record` would accept it; the caller asks before it writes the
    /// record to the file.
    pub fn check_write(&self, command: &Command, length: u64) -> (r: Result<LogPointer, KvsError>)
        requires
            self.wf(),
        ensures
            r.is_ok() == (length > 0 && self.tail().current_position + length <= u64::MAX
                && self.garbage() + self.newly_garbage(command@, length) <= u64::MAX),
            r.is_ok() ==> r == Ok::<LogPointer, KvsError>(
                LogPointer {
                    generation: self.tail().generation,
                    offset: self.tail().current_position,
                    length: length,
                },
            ),
            r.is_err() ==> (r matches Err(e) && e is Io),
    {
        let w = self.writer;
        if length == 0 || w.current_position > u64::MAX - length {
            return Err(KvsError::Io(String::from_str("log file offset overflows")));
        }
        let mut added: u64 = match index_get(&self.index, command.key()) {
            Some(q) => q.length,
            None => 0,
        };
        if let Command::Remove { .. } = command {
            if added > u64::MAX - length {
                return Err(KvsError::Io(String::from_str("uncompacted byte count overflows")));
            }
            added = added + length;
        }
        if self.uncompacted > u64::MAX - added {
            return Err(KvsError::Io(String::from_str("uncompacted byte count overflows")));
        }
        Ok(LogPointer { generation: w.generation, offset: w.current_position, length })
    }

    /// Adds a record of `length` bytes that was just appended at the tail of
    /// the active log file; the result says whether compaction is now due.
    pub fn write_record(&mut self, command: &Command, length: u64) -> (r: Result<bool, KvsError>)
        requires
            old(self).wf(),
        ensures
            final(self).wf(),
            r.is_ok() == (length > 0 && old(self).tail().current_position + length <= u64::MAX
                && old(self).garbage() + old(self).newly_garbage(command@, length) <= u64::MAX),
            match r {
                Ok(due) => {
                    let p = LogPointer {
                        generation: old(self).tail().generation,
                        offset: old(self).tail().current_position,
                        length: length,
                    };
                    &&& final(self).contents() == apply_command(old(self).contents(), command@)
                    &&& final(self).log() == old(self).log().push(
                        (LogEntry { pointer: p, command: command@ }),
                    )
                    &&& final(self).garbage() == old(self).garbage() + old(self).newly_garbage(command@, length)
                    &&& final(self).index() == index_after(old(self).index(), command@, p)
                    &&& final(self).tail().generation == old(self).tail().generation
                    &&& final(self).tail().current_position == old(self).tail().current_position + length
                    &&& final(self).watermark() == old(self).watermark()
                    &&& final(self).pending_plan() is None
                    &&& due == (final(self).garbage() > COMPACTION_THRESHOLD)
                },
                Err(_) => *final(self) == *old(self),
            },
    {
        let w = self.writer;
        if length == 0 || w.current_position > u64::MAX - length {
            return Err(KvsError::Io(String::from_str("log file offset overflows")));
        }
        let p = LogPointer { generation: w.generation, offset: w.current_position, length };
        self.add_record(p, command)
    }

    /// Moves the tail to the start of a fresh log file of a later generation.
    pub fn start_generation(&mut self, generation: u64) -> (r: Result<(), KvsError>)
        requires
            old(self).wf(),
        ensures
            final(self).wf(),
            r.is_ok() == (generation > old(self).tail().generation),
            r.is_ok() ==> final(self).tail() == (LogWriter { generation: generation, current_position: 0 })
                && final(self).pending_plan() is None,
            final(self).contents() == old(self).contents(),
            final(self).log() == old(self).log(),
            final(self).index() == old(self).index(),
            final(self).garbage() == old(self).garbage(),
            final(self).watermark() == old(self).watermark(),
            r.is_err() ==> *final(self) == *old(self),
    {
        if generation <= self.writer.generation {
            return Err(KvsError::Io(String::from_str("log generations must increase")));
        }
        let ghost old_writer = self.writer;
        self.writer = LogWriter::new(generation);
        self.pending = None;
        proof {
            let log = self.log@;
            assert forall|i: int| 0 <= i < log.len() implies before_tail(
                #[trigger] log[i].pointer,
                self.writer,
            ) && log[i].pointer.length > 0 && log[i].pointer.generation >= self.pitr by {
                assert(before_tail(log[i].pointer, old_writer));
            }
        }
        Ok(())
    }

    /// The compaction planned by `begin_compaction` and not yet finished: its
    /// generation and, for each live record, its old and its new place.
    pub closed spec fn pending_plan(&self) -> Option<(u64, Seq<(LogPointer, LogPointer)>)> {
        match self.pending {
            Some(pc) => Some((pc.generation, pc.moves@)),
            None => None,
        }
    }

    /// Plans a compaction: the live records are to be rewritten one after
    /// another, in order of keys, into the generation after the tail's. Nothing
    /// else changes, so a compaction that fails before `finish_compaction`
    /// leaves the store as it was. It succeeds exactly when that generation and
    /// the one after it are numbers, and the live bytes fit the offsets of one
    /// file.
    pub fn begin_compaction(&mut self) -> (r: Result<CompactionPlan, KvsError>)
        requires
            old(self).wf(),
        ensures
            final(self).wf(),
            r.is_ok() == (old(self).tail().generation + 2 <= u64::MAX && total_bytes(old(self).log())
                - old(self).garbage() <= u64::MAX),
            match r {
                Ok(plan) => {
                    &&& final(self).contents() == old(self).contents()
                    &&& final(self).log() == old(self).log()
                    &&& final(self).index() == old(self).index()
                    &&& final(self).tail() == old(self).tail()
                    &&& final(self).garbage() == old(self).garbage()
                    &&& final(self).watermark() == old(self).watermark()
                    &&& plan.generation == old(self).tail().generation + 1
                    &&& final(self).pending_plan() == Some((plan.generation, plan.moves@))
                },
                Err(e) => *final(self) == *old(self) && e is Io,
            },
    {
        if self.writer.generation > u64::MAX - 2 {
            return Err(KvsError::Io(String::from_str("log generations are exhausted")));
        }
        let generation = self.writer.generation + 1;
        let snapshot = index_snapshot(&self.index);
        let ghost old_idx = index_entries(self.index);
        let ghost old_log = self.log@;
        let ghost contents = self.contents@;
        let mut keys: Vec<String> = Vec::new();
        let mut moves: Vec<(LogPointer, LogPointer)> = Vec::new();
        let mut plan_moves: Vec<(LogPointer, LogPointer)> = Vec::new();
        let mut position: u64 = 0;
        let ghost mut new_log: Seq<LogEntry> = Seq::empty();
        let ghost mut done: Set<Seq<char>> = Set::empty();
        proof {
            assert(distinct_pointers(old_log)) by {
                assert forall|a: int, b: int| 0 <= a < b < old_log.len() implies old_log[a].pointer
                    != old_log[b].pointer by {
                    assert(precedes(old_log[a].pointer, old_log[b].pointer));
                }
            }
            assert(old_idx.remove_keys(done) =~= old_idx);
            lemma_live_nonnegative(old_log, old_idx);
        }
        let mut i: usize = 0;
        while i < snapshot.len()
            invariant
                i <= snapshot@.len(),
                *self == *old(self),
                old(self).wf(),
                old_idx == index_entries(self.index),
                old_log == self.log@,
                contents == self.contents@,
                generation == self.writer.generation + 1,
                self.writer.generation + 2 <= u64::MAX,
                forall|j: int|
                    0 <= j < snapshot@.len() ==> old_idx.contains_key(#[trigger] snapshot@[j].0@)
                        && old_idx[snapshot@[j].0@] == snapshot@[j].1,
                forall|k: Seq<char>|
                    old_idx.contains_key(k) ==> exists|j: int|
                        0 <= j < snapshot@.len() && #[trigger] snapshot@[j].0@ == k,
                forall|j: int, k: int| 0 <= j < k < snapshot@.len() ==> snapshot@[j].0@ != snapshot@[k].0@,
                keys@.len() == i,
                moves@.len() == i,
                plan_moves@ == moves@,
                forall|j: int| 0 <= j < i ==> (#[trigger] keys@[j])@ == snapshot@[j].0@,
                forall|j: int|
                    0 <= j < i ==> {
                        let m = #[trigger] moves@[j];
                        &&& m.0 == snapshot@[j].1
                        &&& m.1.generation == generation
                        &&& m.1.length == m.0.length
                        &&& m.1.offset + m.1.length <= position
                    },
                forall|j: int, k: int|
                    0 <= j < k < i ==> #[trigger] moves@[j].1.offset + moves@[j].1.length
                        <= #[trigger] moves@[k].1.offset,
                done == Set::new(|k: Seq<char>| exists|j: int| 0 <= j < i && snapshot@[j].0@ == k),
                new_log.len() == i,
                forall|j: int|
                    0 <= j < i ==> #[trigger] new_log[j] == (LogEntry {
                        pointer: moves@[j].1,
                        command: CommandView::Put {
                            key: snapshot@[j].0@,
                            value: contents[snapshot@[j].0@],
                        },
                    }),
                replay(log_commands(new_log)) == contents.restrict(done),
                distinct_pointers(old_log),
                position == total_bytes(new_log),
                total_bytes(new_log) + live_bytes(old_log, old_idx.remove_keys(done)) == live_bytes(
                    old_log,
                    old_idx,
                ),
            decreases snapshot.len() - i,
        {
            let old_pointer = snapshot[i].1;
            let ghost k = snapshot@[i as int].0@;
            let ghost rem = old_idx.remove_keys(done);
            let ghost rem2 = old_idx.remove_keys(done.insert(k));
            proof {
                assert(rem2 =~= rem.remove(k));
                assert(!done.contains(k)) by {
                    if done.contains(k) {
                        let j = choose|j: int| 0 <= j < i && snapshot@[j].0@ == k;
                        assert(snapshot@[j].0@ != snapshot@[i as int].0@);
                    }
                }
                assert(agree_off(rem, rem2, k));
                lemma_live_off_key(old_log, rem, rem2, k);
                lemma_key_live_none(old_log, rem2, k);
                let e = LogEntry {
                    pointer: old_idx[k],
                    command: CommandView::Put { key: k, value: contents[k] },
                };
                assert(old_log.contains(e));
                let n = choose|n: int| 0 <= n < old_log.len() && old_log[n] == e;
                lemma_key_live_single(old_log, rem, k, n);
                lemma_live_nonnegative(old_log, rem2);
            }
            if position > u64::MAX - old_pointer.length {
                proof {
                    old(self).lemma_uncompacted_accounting();
                }
                return Err(KvsError::Io(String::from_str("compacted log offset overflows")));
            }
            let new_pointer = LogPointer { generation, offset: position, length: old_pointer.length };
            keys.push(snapshot[i].0.clone());
            moves.push((old_pointer, new_pointer));
            plan_moves.push((old_pointer, new_pointer));
            position = position + old_pointer.length;
            proof {
                let before = new_log;
                let before_done = done;
                let entry = LogEntry {
                    pointer: new_pointer,
                    command: CommandView::Put { key: k, value: contents[k] },
                };
                lemma_total_push(new_log, entry);
                new_log = new_log.push(entry);
                done = done.insert(k);
                assert(log_commands(new_log).drop_last() =~= log_commands(before));
                assert(contents.contains_key(k));
                assert(contents.restrict(done) =~= contents.restrict(before_done).insert(k, contents[k]));
                assert(done =~= Set::new(|k2: Seq<char>| exists|j: int| 0 <= j < i + 1 && snapshot@[j].0@ == k2)) by {
                    assert forall|k2: Seq<char>| done.contains(k2) implies exists|j: int| 0 <= j < i + 1 && snapshot@[j].0@ == k2 by {
                        if k2 == k {
                            assert(snapshot@[i as int].0@ == k2);
                        } else {
                            assert(before_done.contains(k2));
                        }
                    }
                    assert forall|k2: Seq<char>| (exists|j: int| 0 <= j < i + 1 && snapshot@[j].0@ == k2) implies done.contains(k2) by {
                        let j = choose|j: int| 0 <= j < i + 1 && snapshot@[j].0@ == k2;
                        if j < i {
                            assert(before_done.contains(k2));
                        }
                    }
                }
                assert forall|j: int| 0 <= j < i + 1 implies #[trigger] new_log[j] == (LogEntry {
                    pointer: moves@[j].1,
                    command: CommandView::Put {
                        key: snapshot@[j].0@,
                        value: contents[snapshot@[j].0@],
                    },
                }) by {
                    if j < i {
                        assert(new_log[j] == before[j]);
                    }
                }
            }
            i = i + 1;
        }
        let pc = PendingCompaction { generation, keys, moves };
        proof {
            assert(done =~= contents.dom()) by {
                assert forall|k: Seq<char>| contents.contains_key(k) implies done.contains(k) by {
                    assert(old_idx.contains_key(k));
                    let j = choose|j: int| 0 <= j < snapshot@.len() && #[trigger] snapshot@[j].0@ == k;
                }
                assert forall|k: Seq<char>| done.contains(k) implies contents.contains_key(k) by {
                    let j = choose|j: int| 0 <= j < snapshot@.len() && snapshot@[j].0@ == k;
                    assert(old_idx.contains_key(snapshot@[j].0@));
                }
            }
            assert(contents.restrict(done) =~= contents);
            assert(old_idx.remove_keys(done).dom() =~= Set::<Seq<char>>::empty());
            lemma_none_live(old_log, old_idx.remove_keys(done));
            let ks = key_views(pc.keys@);
            assert(new_log =~= plan_log(ks, pc.moves@, contents));
            assert forall|k: Seq<char>| old_idx.contains_key(k) implies exists|j: int|
                0 <= j < ks.len() && #[trigger] ks[j] == k by {
                let j = choose|j: int| 0 <= j < snapshot@.len() && #[trigger] snapshot@[j].0@ == k;
                assert(ks[j] == k);
            }
            assert forall|a: int| 0 <= a < pc.moves@.len() implies old_idx.contains_key(#[trigger] ks[a])
                && old_idx[ks[a]] == pc.moves@[a].0 && pc.moves@[a].1.generation == generation
                && pc.moves@[a].1.length == pc.moves@[a].0.length && pc.moves@[a].1.offset
                + pc.moves@[a].1.length <= u64::MAX by {
                assert(ks[a] == snapshot@[a].0@);
            }
            assert forall|a: int, b: int| 0 <= a < b < pc.moves@.len() implies #[trigger] ks[a]
                != #[trigger] ks[b] by {
                assert(ks[a] == snapshot@[a].0@ && ks[b] == snapshot@[b].0@);
            }
        }
        self.pending = Some(pc);
        Ok(CompactionPlan { generation, moves: plan_moves })
    }

    /// Applies the planned compaction once the caller has written the new log
    /// file: the index points at the new places, readers consult nothing older
    /// than the new generation, nothing is garbage, and the tail is the start
    /// of the generation after it. The caller then deletes the log files of
    /// older generations. It fails, changing nothing, when no compaction is
    /// planned: a write since `begin_compaction` drops the plan.
    pub fn finish_compaction(&mut self) -> (r: Result<u64, KvsError>)
        requires
            old(self).wf(),
        ensures
            final(self).wf(),
            final(self).contents() == old(self).contents(),
            r.is_ok() == old(self).pending_plan().is_some(),
            match r {
                Ok(generation) => {
                    let moves = old(self).pending_plan().unwrap().1;
                    &&& generation == old(self).pending_plan().unwrap().0
                    &&& generation == old(self).tail().generation + 1
                    &&& final(self).watermark() == generation
                    &&& final(self).garbage() == 0
                    &&& final(self).pending_plan() is None
                    &&& total_bytes(final(self).log()) == total_bytes(old(self).log()) - old(self).garbage()
                    &&& final(self).tail() == (LogWriter {
                        generation: (generation + 1) as u64,
                        current_position: 0,
                    })
                    &&& final(self).log().len() == moves.len()
                    &&& forall|i: int|
                        #![trigger final(self).log()[i]]
                        0 <= i < final(self).log().len() ==> {
                            let e = final(self).log()[i];
                            let k = e.command.key();
                            &&& e.pointer == moves[i].1
                            &&& e.pointer.generation == generation
                            &&& e.pointer.length == moves[i].0.length
                            &&& old(self).log().contains((LogEntry { pointer: moves[i].0, command: e.command }))
                            &&& old(self).contents().contains_key(k)
                            &&& e.command == CommandView::Put { key: k, value: old(self).contents()[k] }
                        }
                    &&& forall|i: int, j: int|
                        0 <= i < j < final(self).log().len() ==> #[trigger] final(self).log()[i].command.key()
                            != #[trigger] final(self).log()[j].command.key()
                    &&& forall|k: Seq<char>|
                        old(self).contents().contains_key(k) ==> exists|i: int|
                            0 <= i < final(self).log().len() && #[trigger] final(self).log()[i].command.key() == k
                },
                Err(e) => *final(self) == *old(self) && e is Io,
            },
    {
        if self.pending.is_none() {
            return Err(KvsError::Io(String::from_str("no compaction is planned")));
        }
        let pc = self.pending.take().unwrap();
        self.pending = None;
        let ghost old_idx = index_entries(self.index);
        let ghost old_log = self.log@;
        let ghost contents = self.contents@;
        let ghost ks = key_views(pc.keys@);
        let ghost new_log = plan_log(ks, pc.moves@, contents);
        let ghost mut done: Set<Seq<char>> = Set::empty();
        let generation = pc.generation;
        let mut i: usize = 0;
        while i < pc.keys.len()
            invariant
                i <= pc.keys@.len(),
                old(self).wf(),
                old(self).pending == Some(pc),
                self.pending is None,
                self.writer == old(self).writer,
                self.log == old(self).log,
                self.contents == old(self).contents,
                self.uncompacted == old(self).uncompacted,
                self.pitr == old(self).pitr,
                old_idx == index_entries(old(self).index),
                old_log == old(self).log@,
                contents == old(self).contents@,
                ks == key_views(pc.keys@),
                old(self).valid_pending(pc),
                index_entries(self.index).dom() == old_idx.dom(),
                forall|j: int| 0 <= j < i ==> index_entries(self.index)[#[trigger] ks[j]] == pc.moves@[j].1,
                forall|k: Seq<char>|
                    #![trigger index_entries(self.index)[k]]
                    old_idx.contains_key(k) && !done.contains(k) ==> index_entries(self.index)[k]
                        == old_idx[k],
                done == Set::new(|k: Seq<char>| exists|j: int| 0 <= j < i && ks[j] == k),
            decreases pc.keys@.len() - i,
        {
            let key = pc.keys[i].clone();
            let new_pointer = pc.moves[i].1;
            let ghost k = ks[i as int];
            let ghost before_done = done;
            index_insert(&mut self.index, key, new_pointer);
            proof {
                done = done.insert(k);
                assert(done =~= Set::new(|k2: Seq<char>| exists|j: int| 0 <= j < i + 1 && ks[j] == k2)) by {
                    assert forall|k2: Seq<char>| done.contains(k2) implies exists|j: int| 0 <= j < i + 1 && ks[j] == k2 by {
                        if k2 == k {
                            assert(ks[i as int] == k2);
                        } else {
                            assert(before_done.contains(k2));
                        }
                    }
                    assert forall|k2: Seq<char>| (exists|j: int| 0 <= j < i + 1 && ks[j] == k2) implies done.contains(k2) by {
                        let j = choose|j: int| 0 <= j < i + 1 && ks[j] == k2;
                        if j < i {
                            assert(before_done.contains(k2));
                        }
                    }
                }
                assert(old_idx.contains_key(ks[i as int]));
                assert forall|j: int| 0 <= j < i + 1 implies index_entries(self.index)[#[trigger] ks[j]]
                    == pc.moves@[j].1 by {
                    if j < i {
                        assert(ks[j] != k);
                    }
                }
            }
            i = i + 1;
        }
        self.uncompacted = 0;
        self.pitr = generation;
        self.writer = LogWriter::new(generation + 1);
        self.log = Ghost(new_log);
        proof {
            let idx = index_entries(self.index);
            old(self).lemma_uncompacted_accounting();
            assert forall|k: Seq<char>| #[trigger] idx.contains_key(k) implies new_log.contains(
                LogEntry {
                    pointer: idx[k],
                    command: CommandView::Put { key: k, value: contents[k] },
                },
            ) by {
                let j = choose|j: int| 0 <= j < ks.len() && #[trigger] ks[j] == k;
                assert(new_log[j].pointer == idx[k]);
            }
            assert forall|j: int, k: int| 0 <= j < k < new_log.len() implies precedes(
                #[trigger] new_log[j].pointer,
                #[trigger] new_log[k].pointer,
            ) by {
                assert(pc.moves@[j].1.offset + pc.moves@[j].1.length <= pc.moves@[k].1.offset);
            }
            assert forall|j: int| 0 <= j < new_log.len() implies before_tail(
                #[trigger] new_log[j].pointer,
                self.writer,
            ) && new_log[j].pointer.length > 0 && new_log[j].pointer.generation >= self.pitr by {
                let key = ks[j];
                assert(old_idx.contains_key(key));
                let e = LogEntry {
                    pointer: old_idx[key],
                    command: CommandView::Put { key: key, value: contents[key] },
                };
                assert(old_log.contains(e));
                let n = choose|n: int| 0 <= n < old_log.len() && old_log[n] == e;
                assert(old_log[n].pointer.length > 0);
            }
            assert forall|j: int| 0 <= j < new_log.len() implies is_live(#[trigger] new_log[j], idx) by {
                assert(new_log[j].command.key() == ks[j]);
            }
            lemma_all_live(new_log, idx);
            assert forall|j: int| 0 <= j < new_log.len() implies {
                let e = #[trigger] self.log@[j];
                let k = e.command.key();
                &&& e.pointer == pc.moves@[j].1
                &&& e.pointer.generation == generation
                &&& e.pointer.length == pc.moves@[j].0.length
                &&& old_log.contains((LogEntry { pointer: pc.moves@[j].0, command: e.command }))
                &&& contents.contains_key(k)
                &&& e.command == CommandView::Put { key: k, value: contents[k] }
            } by {
                let key = ks[j];
                assert(old_idx.contains_key(key));
                assert(self.log@[j].command.key() == key);
            }
            assert forall|a: int, b: int| 0 <= a < b < new_log.len() implies (#[trigger] self.log@[a]).command.key()
                != (#[trigger] self.log@[b]).command.key() by {
                assert(self.log@[a].command.key() == ks[a] && self.log@[b].command.key() == ks[b]);
            }
            assert forall|k: Seq<char>| contents.contains_key(k) implies exists|j: int|
                0 <= j < self.log@.len() && #[trigger] self.log@[j].command.key() == k by {
                assert(old_idx.contains_key(k));
                let j = choose|j: int| 0 <= j < ks.len() && #[trigger] ks[j] == k;
                assert(self.log@[j].command.key() == k);
            }
        }
        Ok(generation)
    }

    /// Adds the record `command` at `p`, which starts at or after the tail,
    /// and moves the tail to its end.
    fn add_record(&mut self, p: LogPointer, command: &Command) -> (r: Result<bool, KvsError>)
        requires
            old(self).wf(),
            at_or_after_tail(p, old(self).tail()),
            p.length > 0,
            p.offset + p.length <= u64::MAX,
        ensures
            final(self).wf(),
            r.is_ok() == (old(self).garbage() + old(self).newly_garbage(command@, p.length) <= u64::MAX),
            match r {
                Ok(due) => {
                    &&& final(self).contents() == apply_command(old(self).contents(), command@)
                    &&& final(self).log() == old(self).log().push(
                        LogEntry { pointer: p, command: command@ },
                    )
                    &&& final(self).garbage() == old(self).garbage() + old(self).newly_garbage(command@, p.length)
                    &&& final(self).index() == index_after(old(self).index(), command@, p)
                    &&& final(self).tail() == (LogWriter {
                        generation: p.generation,
                        current_position: (p.offset + p.length) as u64,
                    })
                    &&& final(self).watermark() == old(self).watermark()
                    &&& final(self).pending_plan() is None
                    &&& due == (final(self).garbage() > COMPACTION_THRESHOLD)
                },
                Err(e) => *final(self) == *old(self) && e is Io,
            },
    {
        let ghost old_log = self.log@;
        let ghost old_idx = index_entries(self.index);
        let ghost old_contents = self.contents@;
        let ghost entry = LogEntry { pointer: p, command: command@ };
        let key = command.key();
        let previous = index_get(&self.index, key);
        let mut added: u64 = match previous {
            Some(q) => q.length,
            None => 0,
        };
        if let Command::Remove { .. } = command {
            if added > u64::MAX - p.length {
                return Err(KvsError::Io(String::from_str("uncompacted byte count overflows")));
            }
            added = added + p.length;
        }
        if self.uncompacted > u64::MAX - added {
            return Err(KvsError::Io(String::from_str("uncompacted byte count overflows")));
        }
        match command {
            Command::Put { key, .. } => {
                index_insert(&mut self.index, key.clone(), p);
            },
            Command::Remove { key } => {
                index_remove(&mut self.index, key);
            },
        }
        self.uncompacted = self.uncompacted + added;
        let old_writer = self.writer;
        self.writer = LogWriter { generation: p.generation, current_position: p.offset + p.length };
        self.pending = None;
        self.log = Ghost(old_log.push(entry));
        self.contents = Ghost(apply_command(old_contents, command@));
        proof {
            let log = self.log@;
            let idx = index_entries(self.index);
            assert(log_commands(log).drop_last() =~= log_commands(old_log));
            assert(idx.dom() =~= self.contents@.dom());
            assert forall|k: Seq<char>| #[trigger] idx.contains_key(k) implies log.contains(
                LogEntry {
                    pointer: idx[k],
                    command: CommandView::Put { key: k, value: self.contents@[k] },
                },
            ) by {
                if k == command@.key() {
                    assert(log[log.len() - 1] == entry);
                } else {
                    let e = LogEntry {
                        pointer: old_idx[k],
                        command: CommandView::Put { key: k, value: old_contents[k] },
                    };
                    assert(old_log.contains(e));
                    let i = choose|i: int| 0 <= i < old_log.len() && old_log[i] == e;
                    assert(log[i] == e);
                }
            }
            assert forall|i: int, j: int| 0 <= i < j < log.len() implies precedes(
                #[trigger] log[i].pointer,
                #[trigger] log[j].pointer,
            ) by {
                if j == log.len() - 1 {
                    assert(before_tail(old_log[i].pointer, old_writer));
                } else {
                    assert(log[i] == old_log[i] && log[j] == old_log[j]);
                }
            }
            assert forall|i: int| 0 <= i < log.len() implies before_tail(
                #[trigger] log[i].pointer,
                self.writer,
            ) && log[i].pointer.length > 0 && log[i].pointer.generation >= self.pitr by {
                if i < log.len() - 1 {
                    assert(log[i] == old_log[i]);
                    assert(before_tail(old_log[i].pointer, old_writer));
                }
            }
            let k = command@.key();
            assert(distinct_pointers(old_log)) by {
                assert forall|i: int, j: int| 0 <= i < j < old_log.len() implies old_log[i].pointer
                    != old_log[j].pointer by {
                    assert(precedes(old_log[i].pointer, old_log[j].pointer));
                }
            }
            assert forall|i: int| 0 <= i < old_log.len() implies old_log[i].pointer != p by {
                assert(before_tail(old_log[i].pointer, old_writer));
            }
            assert(agree_off(old_idx, idx, k));
            lemma_live_off_key(old_log, old_idx, idx, k);
            lemma_key_live_none(old_log, idx, k);
            if old_idx.contains_key(k) {
                let e = LogEntry {
                    pointer: old_idx[k],
                    command: CommandView::Put { key: k, value: old_contents[k] },
                };
                assert(old_log.contains(e));
                let n = choose|n: int| 0 <= n < old_log.len() && old_log[n] == e;
                lemma_key_live_single(old_log, old_idx, k, n);
            } else {
                lemma_key_live_none(old_log, old_idx, k);
            }
            lemma_total_push(old_log, entry);
            assert(log.drop_last() =~= old_log);
        }
        Ok(self.uncompacted > COMPACTION_THRESHOLD)
    }
}

/// The value that a `get` returns once the record that the index points to
/// has been read back and decoded: the value of a `Put`; any other record means
/// that the index and the log disagree.
pub fn value_of(command: Command) -> (r: Result<String, KvsError>)
    ensures
        match command@ {
            CommandView::Put { value: v, .. } => r matches Ok(s) && s@ == v,
            CommandView::Remove { .. } => r == Err::<String, KvsError>(KvsError::UnexpectedCommandType),
        },
{
    match command {
        Command::Put { value, .. } => Ok(value),
        Command::Remove { .. } => Err(KvsError::UnexpectedCommandType),
    }
}

} // verus!
