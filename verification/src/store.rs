//! The store: the log, the index over it, and the operations on both.
use crate::command::{
    decode, decode_at, encode, encode_command, lemma_decode_command, parse_record, Command,
    CommandView, Decoded,
};
use crate::compaction::{
    compacted, dead_bytes, lemma_compacted, lemma_live_bytes_bound, lemma_live_bytes_push,
    lemma_live_records_bytes, live, live_bytes, live_records,
};
use crate::error::KvsError;
use crate::log::{
    appended, appended_pointer, clean, contents_of, contents_step, corrupt, empty_segment,
    entries, entry_at, index_of, index_step, lemma_appended, lemma_appended_located,
    lemma_index_locates, lemma_index_tracks_contents, lemma_located_once, lemma_log_bytes,
    lemma_opened_segment, lemma_replay_push, lemma_scan_appended, lemma_scan_step,
    lemma_total_bytes_appended, lemma_total_bytes_bound, locates, log_of, scan, scan_end,
    stored_at, total_bytes, well_formed, Entry, LogPointer, Segment, SegmentView,
};
use crate::medium::{waiting, written};
use crate::recovery::{
    any_corrupt, descending, lemma_any_corrupt, lemma_none_corrupt, lemma_recovers,
    lemma_recovery_start, lemma_recovery_step, lemma_recovery_stop, occurs, partly_recovered,
    recovered, recovered_from, recovers, repeated_id, same_segments, sort_descending,
};
use vstd::hash_map::StringHashMap;
use vstd::prelude::*;
use vstd::slice::slice_subrange;

verus! {

/// How a store lays out and tidies its log.
#[derive(Debug, Clone, Copy, PartialEq, Eq, Structural)]
pub struct Config {
    /// A record is appended to a new segment once the active one holds at
    /// least this many bytes.
    pub segment_limit: u64,
    /// The log is compacted once it holds more segments than this.
    pub max_segments: u64,
    /// The log is compacted once at least this many hundredths of its bytes
    /// are dead.
    pub dead_percent: u8,
}

/// The segment size limit of a store made without a configuration.
pub const DEFAULT_SEGMENT_LIMIT: u64 = 1048576;

/// The segment count limit of a store made without a configuration.
pub const DEFAULT_MAX_SEGMENTS: u64 = 8;

/// The dead byte limit, in hundredths of the log, of a store made without
/// a configuration.
pub const DEFAULT_DEAD_PERCENT: u8 = 50;

impl Config {
    /// The configuration of a store made without one.
    pub open spec fn standard() -> Config {
        Config {
            segment_limit: DEFAULT_SEGMENT_LIMIT,
            max_segments: DEFAULT_MAX_SEGMENTS,
            dead_percent: DEFAULT_DEAD_PERCENT,
        }
    }
}

impl Default for Config {
    fn default() -> (config: Config)
        ensures
            config == Config::standard(),
    {
        Config {
            segment_limit: DEFAULT_SEGMENT_LIMIT,
            max_segments: DEFAULT_MAX_SEGMENTS,
            dead_percent: DEFAULT_DEAD_PERCENT,
        }
    }
}

/// Whether a log is due for compaction: it has more segments than the
/// configuration allows, or the share of its bytes that are dead has
/// reached the configured one.
pub open spec fn should_compact(log: Seq<SegmentView>, config: Config) -> bool {
    ||| log.len() > config.max_segments
    ||| (dead_bytes(log) > 0 && dead_bytes(log) * 100 >= total_bytes(log) * config.dead_percent)
}

/// The log after `set` has bound `key` to `value`: the record is appended,
/// and the log is compacted when that leaves it due.
pub open spec fn after_set(
    log: Seq<SegmentView>,
    config: Config,
    key: Seq<char>,
    value: Seq<char>,
) -> Seq<SegmentView> {
    let written = appended(log, config.segment_limit, CommandView::Put { key, value });
    if should_compact(written, config) {
        compacted(written)
    } else {
        written
    }
}

/// The log after `remove` has deleted the binding of `key`, or the error
/// with which `remove` leaves the log as it is.
pub open spec fn after_remove(log: Seq<SegmentView>, config: Config, key: Seq<char>) -> Result<
    Seq<SegmentView>,
    KvsError,
> {
    if contents_of(entries(log)).contains_key(key) {
        Ok(appended(log, config.segment_limit, CommandView::Remove { key }))
    } else {
        Err(KvsError::KeyNotFound)
    }
}

/// The value that `get` finds for `key` in a store with this log.
pub open spec fn value_of(log: Seq<SegmentView>, key: Seq<char>) -> Option<Seq<char>> {
    if contents_of(entries(log)).contains_key(key) {
        Some(contents_of(entries(log))[key])
    } else {
        None
    }
}

/// Whether `dead` bytes out of `total` are at least `percent` hundredths.
fn share_reached(dead: u128, total: u128, percent: u8) -> (reached: bool)
    requires
        dead <= total,
    ensures
        reached == (dead > 0 && dead * 100 >= total * percent),
{
    if dead == 0 {
        return false;
    }
    if percent > 100 {
        assert(dead * 100 < total * percent) by (nonlinear_arith)
            requires
                0 < dead <= total,
                percent > 100,
        ;
        return false;
    }
    let whole: u128 = total / 100;
    let part: u128 = total % 100;
    assert(part * percent <= 10000 && 100 * (whole * percent) + part * percent <= 100 * total)
        by (nonlinear_arith)
        requires
            total == whole * 100 + part,
            0 <= part < 100,
            0 <= percent <= 100,
            whole >= 0,
    ;
    let scaled: u128 = part * (percent as u128);
    let floor: u128 = whole * (percent as u128) + scaled / 100;
    let left: u128 = scaled % 100;
    assert(total * percent == 100 * floor + left) by (nonlinear_arith)
        requires
            total == whole * 100 + part,
            scaled == part * percent,
            floor == whole * percent + scaled / 100,
            left == scaled % 100,
    ;
    dead > floor || (dead == floor && left == 0)
}

/// A log-structured key-value store.
pub struct KvStore {
    segments: Vec<Segment>,
    index: StringHashMap<LogPointer>,
    config: Config,
    total: u128,
    live: u128,
}

impl KvStore {
    /// The log of the store.
    pub closed spec fn log(&self) -> Seq<SegmentView> {
        log_of(self.segments@)
    }

    /// The index of the store: for each live key, where its value is.
    pub closed spec fn index(&self) -> Map<Seq<char>, LogPointer> {
        self.index@
    }

    /// The configuration of the store.
    pub closed spec fn config(&self) -> Config {
        self.config
    }

    /// The key-value mapping that the store holds.
    pub open spec fn contents(&self) -> Map<Seq<char>, Seq<char>> {
        contents_of(entries(self.log()))
    }

    /// The invariant of the store: its log is in good order and has an
    /// active segment, and its index is the one that replaying the log gives.
    pub open spec fn wf(&self) -> bool {
        &&& self.log().len() > 0
        &&& self.inv()
    }

    /// The part of the invariant that holds of a store in the making too,
    /// whose log may still be empty.
    pub open spec fn inv(&self) -> bool {
        &&& well_formed(self.log())
        &&& self.index() == index_of(entries(self.log()))
        &&& self.counted()
    }

    /// The store's byte counts are those of its log.
    pub closed spec fn counted(&self) -> bool {
        &&& self.total == total_bytes(self.log())
        &&& self.live == live_bytes(self.log())
    }

    /// The position in the log of the segment with the given id.
    pub fn find_segment(&self, id: u64) -> (found: Option<usize>)
        ensures
            (match found {
                Some(i) => i < self.log().len() && self.log()[i as int].id == id,
                None => forall|s: int| 0 <= s < self.log().len() ==> self.log()[s].id != id,
            }),
    {
        let mut i: usize = 0;
        while i < self.segments.len()
            invariant
                i <= self.segments@.len(),
                forall|s: int| 0 <= s < i ==> self.log()[s].id != id,
            decreases self.segments@.len() - i,
        {
            if self.segments[i].id == id {
                return Some(i);
            }
            i += 1;
        }
        None
    }

    /// Reads the command that a pointer locates.
    ///
    /// Fails with `NotFound` when the log has no segment of the pointer's
    /// id, and with `CorruptLog` when the bytes that the pointer names are
    /// not there or are not the record of a command. Neither happens with a
    /// pointer of the index: see `lemma_index_locates`.
    pub fn read(&self, pointer: LogPointer) -> (result: Result<Command, KvsError>)
        ensures
            (match result {
                Ok(command) => locates(self.log(), pointer, command@),
                Err(KvsError::NotFound) => forall|s: int|
                    0 <= s < self.log().len() ==> (#[trigger] self.log()[s]).id
                        != pointer.segment_id,
                Err(KvsError::CorruptLog) => exists|s: int|
                    0 <= s < self.log().len() && (#[trigger] self.log()[s]).id
                        == pointer.segment_id && forall|c: CommandView|
                        !stored_at(self.log()[s], pointer, c),
                Err(KvsError::KeyNotFound) => false,
            }),
    {
        let at = match self.find_segment(pointer.segment_id) {
            Some(at) => at,
            None => { return Err(KvsError::NotFound); },
        };
        let data = self.segments[at].data.as_slice();
        assert(self.log()[at as int].data == data@);
        let len = data.len() as u64;
        if pointer.offset > len || pointer.length > len - pointer.offset {
            return Err(KvsError::CorruptLog);
        }
        let from = pointer.offset as usize;
        let to = (pointer.offset + pointer.length) as usize;
        let result = decode(slice_subrange(data, from, to));
        proof {
            let bytes = data@.subrange(from as int, to as int);
            if result is Ok {
                lemma_decode_command(bytes, result->Ok_0@);
                assert(stored_at(self.log()[at as int], pointer, result->Ok_0@));
            } else {
                assert forall|c: CommandView| !stored_at(
                    self.log()[at as int],
                    pointer,
                    c,
                ) by {
                    lemma_decode_command(bytes, c);
                }
            }
        }
        result
    }

    /// A store with an empty log and the standard configuration.
    pub fn new() -> (store: KvStore)
        ensures
            store.wf(),
            store.config() == Config::standard(),
            store.log() == seq![empty_segment(0)],
            store.contents() == Map::<Seq<char>, Seq<char>>::empty(),
    {
        KvStore::with_config(Config::default())
    }

    /// A store with an empty log and the given configuration.
    ///
    /// The log has one segment, with id 0 and no records: the active one.
    pub fn with_config(config: Config) -> (store: KvStore)
        ensures
            store.wf(),
            store.config() == config,
            store.log() == seq![empty_segment(0)],
            store.contents() == Map::<Seq<char>, Seq<char>>::empty(),
    {
        let mut segments: Vec<Segment> = Vec::new();
        segments.push(Segment { id: 0, data: Vec::new() });
        let store = KvStore { segments, index: StringHashMap::new(), config, total: 0, live: 0 };
        proof {
            let log = store.log();
            assert(log =~= seq![SegmentView { id: 0, data: Seq::empty() }]);
            assert(log.drop_last() =~= Seq::empty());
            assert(entries(log.drop_last()) =~= Seq::empty());
            assert(scan(0, Seq::empty(), 0) =~= Seq::empty());
            assert(entries(log) =~= Seq::empty());
            assert(total_bytes(log.drop_last()) == 0);
        }
        store
    }

    /// Brings the index and the byte counts up to date with the last entry
    /// of `after`, the log as it is once that entry's record is written.
    fn note_entry(
        &mut self,
        command: Command,
        pointer: LogPointer,
        Ghost(after): Ghost<Seq<SegmentView>>,
    )
        requires
            well_formed(after),
            after.len() <= usize::MAX,
            entries(after).len() > 0,
            entries(after).last() == (Entry { pointer, command: command@ }),
            old(self).index@ == index_of(entries(after).drop_last()),
            old(self).live == live_records(
                entries(after).drop_last(),
                index_of(entries(after).drop_last()),
            ).len(),
            old(self).total + pointer.length == total_bytes(after),
        ensures
            final(self).index@ == index_of(entries(after)),
            final(self).total == total_bytes(after),
            final(self).live == live_bytes(after),
            final(self).segments == old(self).segments,
            final(self).config == old(self).config,
    {
        let superseded: u64 = match self.index.get(
            match &command {
                Command::Put { key, value: _ } => key.as_str(),
                Command::Remove { key } => key.as_str(),
            },
        ) {
            Some(pointer) => pointer.length,
            None => 0,
        };
        proof {
            let all = entries(after);
            assert(all.drop_last().push(all.last()) =~= all);
            lemma_replay_push(all.drop_last(), all.last());
            lemma_live_bytes_push(after);
            lemma_live_bytes_bound(after);
            lemma_live_records_bytes(after, index_of(all.drop_last()), all.len() - 1);
            lemma_log_bytes(after);
            assert(all.take(all.len() - 1) =~= all.drop_last());
            lemma_total_bytes_bound(after);
            assert(after.len() * u64::MAX <= u64::MAX * u64::MAX) by (nonlinear_arith)
                requires
                    0 <= after.len() <= u64::MAX,
            ;
        }
        self.total = self.total + pointer.length as u128;
        match command {
            Command::Put { key, value } => {
                self.index.insert(key, pointer);
                self.live = self.live + pointer.length as u128 - superseded as u128;
            },
            Command::Remove { key } => {
                self.index.remove(key.as_str());
                self.live = self.live - superseded as u128;
            },
        }
    }

    /// Appends the record of a command to the log, and returns the pointer
    /// to it.
    ///
    /// The record goes to the active segment, or, when that one has reached
    /// the configured size, to a new segment with the next id, which is the
    /// active one from then on. The index follows the command: a `Put`
    /// makes it point to the new record, a `Remove` drops the key from it.
    pub fn append(&mut self, command: Command) -> (pointer: LogPointer)
        requires
            old(self).wf(),
        ensures
            final(self).wf(),
            command@.representable(),
            final(self).log() == appended(
                old(self).log(),
                old(self).config().segment_limit,
                command@,
            ),
            pointer == appended_pointer(
                old(self).log(),
                old(self).config().segment_limit,
                command@,
            ),
            locates(final(self).log(), pointer, command@),
            final(self).index() == index_step(
                old(self).index(),
                (Entry { pointer, command: command@ }),
            ),
            final(self).contents() == contents_step(old(self).contents(), command@),
            final(self).config() == old(self).config(),
    {
        let mut record = encode(&command);
        let length = record.len() as u64;
        let ghost before = self.log();
        let mut active = self.segments.pop().unwrap();
        assert(active@ == before.last());
        let pointer = if active.data.len() as u64 >= self.config.segment_limit && active.id
            < u64::MAX {
            let id = active.id + 1;
            self.segments.push(active);
            self.segments.push(Segment { id, data: record });
            LogPointer { segment_id: id, offset: 0, length }
        } else {
            let offset = active.data.len() as u64;
            active.data.append(&mut record);
            let id = active.id;
            assert(active.data@.len() == active.data.len());
            self.segments.push(active);
            LogPointer { segment_id: id, offset, length }
        };
        let ghost after = self.log();
        proof {
            assert(after =~= appended(before, self.config.segment_limit, command@));
            lemma_appended(before, self.config.segment_limit, command@);
            lemma_replay_push(entries(before), Entry { pointer, command: command@ });
            assert(entries(after).drop_last() =~= entries(before));
            lemma_total_bytes_appended(before, self.config.segment_limit, command@);
            assert(self.segments@.len() == self.segments.len());
            lemma_appended_located(before, self.config.segment_limit, command@);
        }
        self.note_entry(command, pointer, Ghost(after));
        pointer
    }

    /// Makes what is recovered of a segment the last segment of the log,
    /// and brings the index and the byte counts up to date with its records.
    fn recover_segment(&mut self, segment: Segment) -> (result: Result<(), KvsError>)
        requires
            old(self).inv(),
            old(self).log().len() < usize::MAX,
            old(self).log().len() > 0 ==> old(self).log().last().id < segment.id,
        ensures
            (match result {
                Ok(()) => {
                    &&& final(self).inv()
                    &&& final(self).log() == old(self).log().push(recovered(segment@))
                    &&& final(self).config() == old(self).config()
                    &&& !corrupt(segment@.data)
                },
                Err(error) => error == KvsError::CorruptLog && corrupt(segment@.data),
            }),
    {
        let id = segment.id;
        let mut data = segment.data;
        let ghost base = self.log();
        let ghost bytes = data@;
        let len = data.len();
        let mut pos: usize = 0;
        let mut whole = true;
        proof {
            lemma_recovery_start(base, id, bytes);
        }
        while whole && pos < len
            invariant
                bytes == segment@.data,
                data@ == bytes,
                len == bytes.len(),
                pos <= len,
                base.len() < usize::MAX,
                self.log() == base,
                self.config == old(self).config,
                scan_end(bytes, pos as int) == scan_end(bytes, 0),
                !whole ==> pos < len && parse_record(bytes.skip(pos as int)) is Incomplete,
                well_formed(partly_recovered(base, id, bytes, pos as int)),
                self.index@ == index_of(entries(partly_recovered(base, id, bytes, pos as int))),
                self.total == total_bytes(partly_recovered(base, id, bytes, pos as int)),
                self.live == live_bytes(partly_recovered(base, id, bytes, pos as int)),
            decreases len - pos + if whole { 1int } else { 0int },
        {
            match decode_at(data.as_slice(), pos) {
                Decoded::Record { command, length } => {
                    let pointer = LogPointer {
                        segment_id: id,
                        offset: pos as u64,
                        length: length as u64,
                    };
                    let ghost next = partly_recovered(base, id, bytes, pos + length);
                    proof {
                        lemma_recovery_step(base, id, bytes, pos as int);
                        assert(entries(next).drop_last() =~= entries(
                            partly_recovered(base, id, bytes, pos as int),
                        ));
                    }
                    self.note_entry(command, pointer, Ghost(next));
                    pos += length;
                },
                Decoded::Incomplete => {
                    whole = false;
                },
                Decoded::Corrupt => {
                    proof {
                        lemma_recovery_stop(base, id, bytes, pos as int);
                    }
                    return Err(KvsError::CorruptLog);
                },
            }
        }
        proof {
            lemma_recovery_stop(base, id, bytes, pos as int);
        }
        data.truncate(pos);
        assert(data@ =~= bytes.take(pos as int));
        self.segments.push(Segment { id, data });
        assert(self.log() =~= partly_recovered(base, id, bytes, pos as int));
        Ok(())
    }

    /// Opens a store with the standard configuration on the segments found
    /// where it was kept.
    ///
    /// The segments may come in any order. Fails with `CorruptLog` when two
    /// of them have the same id, or when one holds bytes that are not a
    /// record and not a cut-off record at its end.
    pub fn open(segments: Vec<Segment>) -> (result: Result<KvStore, KvsError>)
        ensures
            result is Ok <==> !repeated_id(log_of(segments@)) && !any_corrupt(log_of(segments@)),
            (match result {
                Ok(store) => {
                    &&& store.wf()
                    &&& store.config() == Config::standard()
                    &&& recovers(store.log(), log_of(segments@))
                },
                Err(error) => error == KvsError::CorruptLog,
            }),
    {
        KvStore::open_with(segments, Config::default())
    }

    /// Opens a store with the given configuration on the segments found
    /// where it was kept.
    ///
    /// The segments may come in any order. Fails with `CorruptLog` when two
    /// of them have the same id, or when one holds bytes that are not a
    /// record and not a cut-off record at its end.
    pub fn open_with(segments: Vec<Segment>, config: Config) -> (result: Result<
        KvStore,
        KvsError,
    >)
        ensures
            result is Ok <==> !repeated_id(log_of(segments@)) && !any_corrupt(log_of(segments@)),
            (match result {
                Ok(store) => {
                    &&& store.wf()
                    &&& store.config() == config
                    &&& recovers(store.log(), log_of(segments@))
                },
                Err(error) => error == KvsError::CorruptLog,
            }),
    {
        let ghost found = log_of(segments@);
        let mut sorted = match sort_descending(segments) {
            Some(sorted) => sorted,
            None => { return Err(KvsError::CorruptLog); },
        };
        let ghost ordered = log_of(sorted@);
        let mut store = KvStore {
            segments: Vec::new(),
            index: StringHashMap::new(),
            config,
            total: 0,
            live: 0,
        };
        assert(store.log() =~= Seq::empty());
        assert(entries(store.log()) =~= Seq::empty());
        assert(sorted@.len() == sorted.len());
        while sorted.len() > 0
            invariant
                found == log_of(segments@),
                log_of(sorted@) == ordered.take(sorted@.len() as int),
                sorted@.len() <= ordered.len() <= usize::MAX,
                descending(ordered),
                same_segments(ordered, found),
                store.inv(),
                store.config == config,
                store.log().len() == ordered.len() - sorted@.len(),
                forall|j: int|
                    sorted@.len() <= j < ordered.len() ==> occurs(
                        store.log(),
                        recovered(#[trigger] ordered[j]),
                    ) && !corrupt(ordered[j].data),
                forall|t: int|
                    0 <= t < store.log().len() ==> #[trigger] recovered_from(
                        store.log(),
                        t,
                        ordered,
                    ),
                store.log().len() > 0 ==> sorted@.len() < ordered.len() && store.log().last().id
                    == ordered[sorted@.len() as int].id,
            decreases sorted@.len(),
        {
            let ghost before = store.log();
            let ghost k = sorted@.len() - 1;
            let ghost waiting = log_of(sorted@);
            let segment = sorted.pop().unwrap();
            assert(segment@ == ordered[k]) by {
                assert(waiting[k] == ordered.take(k + 1)[k]);
            }
            assert(log_of(sorted@) =~= ordered.take(k));
            proof {
                if before.len() > 0 {
                    assert(ordered[k].id > ordered[k + 1].id);
                }
            }
            match store.recover_segment(segment) {
                Ok(()) => {},
                Err(error) => {
                    proof {
                        lemma_any_corrupt(found, ordered, k);
                    }
                    return Err(error);
                },
            }
            proof {
                let after = store.log();
                assert(after[before.len() as int] == recovered(ordered[k]));
                assert forall|j: int| k <= j < ordered.len() implies occurs(
                    after,
                    recovered(#[trigger] ordered[j]),
                ) by {
                    if j > k {
                        let t = choose|t: int|
                            0 <= t < before.len() && #[trigger] before[t] == recovered(ordered[j]);
                        assert(after[t] == before[t]);
                    }
                }
                assert forall|t: int| 0 <= t < after.len() implies #[trigger] recovered_from(
                    after,
                    t,
                    ordered,
                ) by {
                    if t < before.len() {
                        assert(recovered_from(before, t, ordered));
                        assert(after[t] == before[t]);
                    }
                }
            }
        }
        if store.segments.len() == 0 {
            store.segments.push(Segment { id: 0, data: Vec::new() });
            proof {
                lemma_opened_segment(Seq::empty(), 0);
                assert(store.log() =~= Seq::<SegmentView>::empty().push(
                    SegmentView { id: 0, data: Seq::empty() },
                ));
                assert(found.len() == 0);
            }
        } else {
            proof {
                lemma_recovers(found, ordered, store.log());
            }
        }
        proof {
            lemma_none_corrupt(found, ordered);
        }
        Ok(store)
    }

    /// Gets the value of a key, if it has one.
    pub fn get(&self, key: String) -> (result: Result<Option<String>, KvsError>)
        requires
            self.wf(),
        ensures
            result is Ok,
            (match result->Ok_0 {
                Some(value) => value_of(self.log(), key@) == Some(value@),
                None => value_of(self.log(), key@) is None,
            }),
    {
        proof {
            lemma_index_tracks_contents(entries(self.log()));
        }
        let pointer = match self.index.get(key.as_str()) {
            Some(pointer) => *pointer,
            None => { return Ok(None); },
        };
        let found = self.read(pointer);
        proof {
            let log = self.log();
            let written = CommandView::Put { key: key@, value: self.contents()[key@] };
            lemma_index_locates(log, key@);
            let s = choose|s: int|
                0 <= s < log.len() && stored_at(#[trigger] log[s], pointer, written);
            if found is Ok {
                lemma_located_once(log, pointer, found->Ok_0@, written);
            } else if found->Err_0 == KvsError::CorruptLog {
                let t = choose|t: int|
                    0 <= t < log.len() && (#[trigger] log[t]).id == pointer.segment_id
                        && forall|c: CommandView| !stored_at(log[t], pointer, c);
                if s < t {
                    assert(log[s].id < log[t].id);
                }
                if t < s {
                    assert(log[t].id < log[s].id);
                }
                assert(!stored_at(log[t], pointer, written));
            }
        }
        match found {
            Ok(Command::Put { key: _, value }) => Ok(Some(value)),
            Ok(Command::Remove { key: _ }) => Err(KvsError::CorruptLog),
            Err(error) => Err(error),
        }
    }

    /// Binds a key to a value.
    ///
    /// The record of the binding is appended to the log. When that leaves
    /// the log due for compaction, the log is compacted at once.
    pub fn set(&mut self, key: String, value: String) -> (result: Result<(), KvsError>)
        requires
            old(self).wf(),
        ensures
            result is Ok,
            final(self).wf(),
            final(self).config() == old(self).config(),
            final(self).log() == after_set(old(self).log(), old(self).config(), key@, value@),
            final(self).contents() == old(self).contents().insert(key@, value@),
    {
        self.append(Command::Put { key, value });
        if self.due_for_compaction() {
            self.compact();
        }
        Ok(())
    }

    /// Deletes the binding of a key.
    ///
    /// Fails with `KeyNotFound`, and changes nothing, when the key has no
    /// value.
    pub fn remove(&mut self, key: String) -> (result: Result<(), KvsError>)
        requires
            old(self).wf(),
        ensures
            final(self).wf(),
            final(self).config() == old(self).config(),
            (match after_remove(old(self).log(), old(self).config(), key@) {
                Ok(log) => result is Ok && final(self).log() == log,
                Err(error) => result == Err::<(), KvsError>(error) && final(self).log() == old(
                    self,
                ).log(),
            }),
            final(self).contents() == old(self).contents().remove(key@),
    {
        proof {
            lemma_index_tracks_contents(entries(self.log()));
        }
        if !self.index.contains_key(key.as_str()) {
            return Err(KvsError::KeyNotFound);
        }
        self.append(Command::Remove { key });
        Ok(())
    }

    /// The segments of the log, in the order of their ids. The last one is
    /// the active segment.
    pub fn segments(&self) -> (segments: &Vec<Segment>)
        ensures
            log_of(segments@) == self.log(),
    {
        &self.segments
    }

    /// Whether the log is due for compaction.
    pub fn due_for_compaction(&self) -> (due: bool)
        requires
            self.wf(),
        ensures
            due == should_compact(self.log(), self.config()),
    {
        proof {
            lemma_live_bytes_bound(self.log());
        }
        assert(self.segments@.len() == self.segments.len());
        self.segments.len() as u64 > self.config.max_segments || share_reached(
            self.total - self.live,
            self.total,
            self.config.dead_percent,
        )
    }

    /// Compacts the log: writes the live records into a new segment with
    /// the next id, and drops every older segment. A log whose ids are used
    /// up is left as it is.
    pub fn compact(&mut self)
        requires
            old(self).wf(),
        ensures
            final(self).wf(),
            final(self).log() == compacted(old(self).log()),
            final(self).config() == old(self).config(),
            final(self).contents() == old(self).contents(),
            total_bytes(final(self).log()) <= total_bytes(old(self).log()),
    {
        let ghost log = self.log();
        let ghost all = entries(log);
        let ghost live_index = self.index@;
        let count = self.segments.len();
        let last_id = self.segments[count - 1].id;
        assert(log.last().id == last_id);
        if last_id == u64::MAX {
            return ;
        }
        let id = last_id + 1;
        let mut data: Vec<u8> = Vec::new();
        let mut index: StringHashMap<LogPointer> = StringHashMap::new();
        let ghost mut done: Seq<Entry> = Seq::empty();
        assert(log.take(0) =~= Seq::empty());
        assert(scan(id, data@, 0) =~= Seq::empty());
        let mut i: usize = 0;
        while i < count
            invariant
                self.log() == log,
                self.index@ == live_index,
                count == self.segments@.len(),
                well_formed(log),
                i <= count,
                done == entries(log.take(i as int)),
                data@ == live_records(done, live_index),
                clean(data@),
                index@ == index_of(scan(id, data@, 0)),
            decreases count - i,
        {
            let segment_id = self.segments[i].id;
            let bytes = self.segments[i].data.as_slice();
            assert(log[i as int].data == bytes@ && log[i as int].id == segment_id);
            assert(log.take(i + 1).drop_last() =~= log.take(i as int));
            assert(log.take(i + 1).last() == log[i as int]);
            let mut pos: usize = 0;
            while pos < bytes.len()
                invariant
                    self.index@ == live_index,
                    pos <= bytes@.len() <= u64::MAX,
                    scan_end(bytes@, pos as int) == bytes@.len(),
                    done + scan(segment_id, bytes@, pos as int) == entries(log.take(i + 1)),
                    data@ == live_records(done, live_index),
                    clean(data@),
                    index@ == index_of(scan(id, data@, 0)),
                decreases bytes@.len() - pos,
            {
                let ghost rest = scan(segment_id, bytes@, pos as int);
                match decode_at(bytes, pos) {
                    Decoded::Record { command, length } => {
                        let pointer = LogPointer {
                            segment_id,
                            offset: pos as u64,
                            length: length as u64,
                        };
                        let ghost entry = entry_at(segment_id, pos as int, command@, length as nat);
                        proof {
                            lemma_scan_step(segment_id, bytes@, pos as int);
                            assert(done.push(entry) + scan(segment_id, bytes@, pos + length)
                                =~= done + rest);
                            assert(done.push(entry).drop_last() =~= done);
                        }
                        match command {
                            Command::Put { key, value } => {
                                let is_live = match self.index.get(key.as_str()) {
                                    Some(current) => *current == pointer,
                                    None => false,
                                };
                                assert(is_live == live(live_index, entry));
                                if is_live {
                                    let offset = data.len() as u64;
                                    proof {
                                        lemma_scan_appended(id, data@, entry.command);
                                        lemma_replay_push(
                                            scan(id, data@, 0),
                                            entry_at(
                                                id,
                                                data@.len() as int,
                                                entry.command,
                                                length as nat,
                                            ),
                                        );
                                    }
                                    let ghost before = data@;
                                    data.extend_from_slice(slice_subrange(bytes, pos, pos + length));
                                    assert(data@ =~= before + encode_command(entry.command));
                                    index.insert(
                                        key,
                                        LogPointer { segment_id: id, offset, length: length as u64 },
                                    );
                                }
                            },
                            Command::Remove { key } => {},
                        }
                        proof {
                            done = done.push(entry);
                        }
                        pos += length;
                    },
                    _ => {
                        proof {
                            assert(false);
                        }
                        return ;
                    },
                }
            }
            assert(scan(segment_id, bytes@, pos as int) =~= Seq::empty());
            assert(done + Seq::<Entry>::empty() =~= done);
            i += 1;
        }
        proof {
            assert(log.take(count as int) =~= log);
            assert(data@.len() == data.len());
            lemma_compacted(log);
        }
        let data_len = data.len();
        let mut segments: Vec<Segment> = Vec::new();
        segments.push(Segment { id, data });
        self.segments = segments;
        self.index = index;
        self.total = data_len as u128;
        self.live = data_len as u128;
        assert(self.log() =~= compacted(log));
    }
}

impl Default for KvStore {
    fn default() -> (store: KvStore)
        ensures
            store.wf(),
            store.config() == Config::standard(),
            store.log() == seq![empty_segment(0)],
    {
        KvStore::new()
    }
}

} // verus!
