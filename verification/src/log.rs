//! The command log: segments, the records they hold, and what a log means.
//!
//! A log is a sequence of segments. Read front to back, segment after
//! segment, it yields a sequence of entries, each a command together with the
//! pointer to its record. The index and the contents of a store are defined
//! as what replaying those entries, in order, leaves behind.
use crate::command::{
    encode_command, lemma_encode_injective, lemma_parse_encoded_record,
    lemma_parse_ignores_rest, lemma_parsed_record_is_encoded, parse_record, CommandView,
    RecordParse,
};
use vstd::prelude::*;

verus! {

/// The place of one record in the log.
#[derive(Debug, Clone, Copy, PartialEq, Eq, Structural)]
pub struct LogPointer {
    /// The segment that holds the record.
    pub segment_id: u64,
    /// The offset of the record's first byte in that segment.
    pub offset: u64,
    /// The number of bytes of the record.
    pub length: u64,
}

/// One append-only piece of the log.
#[derive(Debug, Clone, PartialEq, Eq)]
pub struct Segment {
    /// The segment's place in the order of the log.
    pub id: u64,
    /// The records of the segment, one after another.
    pub data: Vec<u8>,
}

/// The mathematical value of a [`Segment`].
pub struct SegmentView {
    pub id: u64,
    pub data: Seq<u8>,
}

impl View for Segment {
    type V = SegmentView;

    open spec fn view(&self) -> SegmentView {
        SegmentView { id: self.id, data: self.data@ }
    }
}

/// The mathematical value of a sequence of segments.
pub open spec fn log_of(segments: Seq<Segment>) -> Seq<SegmentView> {
    Seq::new(segments.len(), |i: int| segments[i]@)
}

/// A command of the log, with the pointer to its record.
pub struct Entry {
    pub pointer: LogPointer,
    pub command: CommandView,
}

/// The entry for a record of `length` bytes at offset `pos` of segment `id`.
pub open spec fn entry_at(id: u64, pos: int, command: CommandView, length: nat) -> Entry {
    Entry {
        pointer: LogPointer { segment_id: id, offset: pos as u64, length: length as u64 },
        command,
    }
}

/// The entries that a front-to-back scan of `data` finds from offset `pos`
/// on. The scan stops at the end of the data or at the first bytes that are
/// not a whole record.
pub open spec fn scan(id: u64, data: Seq<u8>, pos: int) -> Seq<Entry>
    decreases data.len() - pos,
{
    if 0 <= pos < data.len() {
        match parse_record(data.skip(pos)) {
            RecordParse::Record { command, length } => if length > 0 {
                seq![entry_at(id, pos, command, length)] + scan(id, data, pos + length)
            } else {
                Seq::empty()
            },
            _ => Seq::empty(),
        }
    } else {
        Seq::empty()
    }
}

/// The offset at which the scan of `data` from `pos` stops.
pub open spec fn scan_end(data: Seq<u8>, pos: int) -> int
    decreases data.len() - pos,
{
    if 0 <= pos < data.len() {
        match parse_record(data.skip(pos)) {
            RecordParse::Record { command, length } => if length > 0 {
                scan_end(data, pos + length)
            } else {
                pos
            },
            _ => pos,
        }
    } else {
        pos
    }
}

/// The segment data is nothing but whole records.
pub open spec fn clean(data: Seq<u8>) -> bool {
    scan_end(data, 0) == data.len()
}

/// The scan of the segment data stops at bytes that can start no record.
pub open spec fn corrupt(data: Seq<u8>) -> bool {
    parse_record(data.skip(scan_end(data, 0))) is Corrupt
}

/// The whole records at the front of the segment data: what is left of a
/// segment when a cut-off record at its end is discarded.
pub open spec fn whole_records(data: Seq<u8>) -> Seq<u8> {
    data.take(scan_end(data, 0))
}

/// The entries of a log, in log order.
pub open spec fn entries(log: Seq<SegmentView>) -> Seq<Entry>
    decreases log.len(),
{
    if log.len() == 0 {
        Seq::empty()
    } else {
        entries(log.drop_last()) + scan(log.last().id, log.last().data, 0)
    }
}

/// The index after one more entry.
pub open spec fn index_step(index: Map<Seq<char>, LogPointer>, entry: Entry) -> Map<
    Seq<char>,
    LogPointer,
> {
    match entry.command {
        CommandView::Put { key, value } => index.insert(key, entry.pointer),
        CommandView::Remove { key } => index.remove(key),
    }
}

/// The index that replaying the entries leaves: each key whose latest
/// command is a `Put`, with the pointer to that command's record.
pub open spec fn index_of(entries: Seq<Entry>) -> Map<Seq<char>, LogPointer>
    decreases entries.len(),
{
    if entries.len() == 0 {
        Map::empty()
    } else {
        index_step(index_of(entries.drop_last()), entries.last())
    }
}

/// The contents after one more command.
pub open spec fn contents_step(contents: Map<Seq<char>, Seq<char>>, command: CommandView) -> Map<
    Seq<char>,
    Seq<char>,
> {
    match command {
        CommandView::Put { key, value } => contents.insert(key, value),
        CommandView::Remove { key } => contents.remove(key),
    }
}

/// The key-value mapping that replaying the entries leaves: the last write
/// to each key wins.
pub open spec fn contents_of(entries: Seq<Entry>) -> Map<Seq<char>, Seq<char>>
    decreases entries.len(),
{
    if entries.len() == 0 {
        Map::empty()
    } else {
        contents_step(contents_of(entries.drop_last()), entries.last().command)
    }
}

/// Replaying one more entry is one more step.
pub proof fn lemma_replay_push(entries: Seq<Entry>, entry: Entry)
    ensures
        index_of(entries.push(entry)) == index_step(index_of(entries), entry),
        contents_of(entries.push(entry)) == contents_step(contents_of(entries), entry.command),
{
    assert(entries.push(entry).drop_last() =~= entries);
}

/// The segments' ids grow strictly from each segment to the next.
pub open spec fn ascending(log: Seq<SegmentView>) -> bool {
    forall|i: int, j: int| 0 <= i < j < log.len() ==> (#[trigger] log[i]).id < (#[trigger] log[j]).id
}

/// A log in good order: ids ascend, and every segment is nothing but whole
/// records.
pub open spec fn well_formed(log: Seq<SegmentView>) -> bool {
    &&& ascending(log)
    &&& forall|i: int|
        0 <= i < log.len() ==> clean((#[trigger] log[i]).data) && log[i].data.len() <= u64::MAX
}

/// The total number of bytes in the log.
pub open spec fn total_bytes(log: Seq<SegmentView>) -> nat
    decreases log.len(),
{
    if log.len() == 0 {
        0
    } else {
        total_bytes(log.drop_last()) + log.last().data.len()
    }
}

/// The segment holds the entry's record at the place its pointer names.
pub open spec fn holds(segment: SegmentView, entry: Entry) -> bool {
    &&& entry.pointer.segment_id == segment.id
    &&& entry.pointer.offset <= segment.data.len()
    &&& parse_record(segment.data.skip(entry.pointer.offset as int)) == (RecordParse::Record {
        command: entry.command,
        length: entry.pointer.length as nat,
    })
}

/// The first pointer's record ends before the second one's begins.
pub open spec fn precedes(first: LogPointer, second: LogPointer) -> bool {
    first.segment_id < second.segment_id || (first.segment_id == second.segment_id && first.offset
        + first.length <= second.offset)
}

/// What the scan of a segment finds lies where its pointers say, in order.
pub proof fn lemma_scan(id: u64, data: Seq<u8>, pos: int)
    requires
        0 <= pos <= data.len() <= u64::MAX,
    ensures
        pos <= scan_end(data, pos) <= data.len(),
        forall|j: int|
            0 <= j < scan(id, data, pos).len() ==> ({
                let e = #[trigger] scan(id, data, pos)[j];
                &&& holds((SegmentView { id, data }), e)
                &&& pos <= e.pointer.offset
                &&& e.pointer.length >= 9
                &&& e.pointer.offset + e.pointer.length <= scan_end(data, pos)
            }),
        forall|a: int, b: int|
            0 <= a < b < scan(id, data, pos).len() ==> precedes(
                (#[trigger] scan(id, data, pos)[a]).pointer,
                (#[trigger] scan(id, data, pos)[b]).pointer,
            ),
    decreases data.len() - pos,
{
    if pos < data.len() {
        match parse_record(data.skip(pos)) {
            RecordParse::Record { command, length } => {
                lemma_parsed_record_is_encoded(data.skip(pos));
                lemma_scan(id, data, pos + length);
                let head = entry_at(id, pos, command, length);
                let rest = scan(id, data, pos + length);
                let all = scan(id, data, pos);
                assert(all == seq![head] + rest);
                assert forall|j: int| 0 <= j < all.len() implies {
                    let e = #[trigger] all[j];
                    &&& holds(SegmentView { id, data }, e)
                    &&& pos <= e.pointer.offset
                    &&& e.pointer.length >= 9
                    &&& e.pointer.offset + e.pointer.length <= scan_end(data, pos)
                } by {
                    if j > 0 {
                        assert(all[j] == rest[j - 1]);
                    }
                }
                assert forall|a: int, b: int| 0 <= a < b < all.len() implies precedes(
                    (#[trigger] all[a]).pointer,
                    (#[trigger] all[b]).pointer,
                ) by {
                    assert(all[b] == rest[b - 1]);
                    if a > 0 {
                        assert(all[a] == rest[a - 1]);
                    }
                }
            },
            _ => {},
        }
    }
}

/// Bytes added behind a clean stretch of data leave its entries as they
/// are: the scan runs through the old data and goes on in the new.
pub proof fn lemma_scan_extended(id: u64, data: Seq<u8>, pos: int, extra: Seq<u8>)
    requires
        0 <= pos <= data.len(),
        scan_end(data, pos) == data.len(),
    ensures
        scan(id, data + extra, pos) == scan(id, data, pos) + scan(
            id,
            data + extra,
            data.len() as int,
        ),
        scan_end(data + extra, pos) == scan_end(data + extra, data.len() as int),
    decreases data.len() - pos,
{
    if pos < data.len() {
        match parse_record(data.skip(pos)) {
            RecordParse::Record { command, length } => {
                lemma_parsed_record_is_encoded(data.skip(pos));
                lemma_parse_ignores_rest(data.skip(pos), extra);
                assert((data + extra).skip(pos) =~= data.skip(pos) + extra);
                lemma_scan_extended(id, data, pos + length, extra);
                assert(scan(id, data + extra, pos) =~= scan(id, data, pos) + scan(
                    id,
                    data + extra,
                    data.len() as int,
                ));
            },
            _ => {},
        }
    } else {
        assert(scan(id, data, pos) =~= Seq::empty());
        assert(scan(id, data + extra, pos) =~= scan(id, data, pos) + scan(
            id,
            data + extra,
            data.len() as int,
        ));
    }
}

/// Appending the record of a command to clean data appends its entry.
pub proof fn lemma_scan_appended(id: u64, data: Seq<u8>, command: CommandView)
    requires
        clean(data),
        command.representable(),
    ensures
        clean(data + encode_command(command)),
        scan(id, data + encode_command(command), 0) == scan(id, data, 0).push(
            entry_at(id, data.len() as int, command, encode_command(command).len()),
        ),
{
    let record = encode_command(command);
    let all = data + record;
    let at = data.len() as int;
    lemma_scan_extended(id, data, 0, record);
    lemma_parse_encoded_record(command, Seq::empty());
    assert(all.skip(at) =~= record + Seq::<u8>::empty());
    assert(all.skip(at) =~= record);
    assert(scan(id, all, at + record.len()) =~= Seq::empty());
    assert(scan(id, all, at) =~= seq![entry_at(id, at, command, record.len())]);
    assert(scan_end(all, at + record.len()) == at + record.len());
    assert(scan(id, all, 0) =~= scan(id, data, 0).push(entry_at(id, at, command, record.len())));
}

/// Cutting data off where its scan stops keeps the entries and leaves
/// clean data.
pub proof fn lemma_scan_cut(id: u64, data: Seq<u8>, pos: int)
    requires
        0 <= pos <= data.len(),
    ensures
        pos <= scan_end(data, pos) <= data.len(),
        scan(id, data.take(scan_end(data, pos)), pos) == scan(id, data, pos),
        scan_end(data.take(scan_end(data, pos)), pos) == scan_end(data, pos),
    decreases data.len() - pos,
{
    let end = scan_end(data, pos);
    if pos < data.len() {
        match parse_record(data.skip(pos)) {
            RecordParse::Record { command, length } => {
                lemma_parsed_record_is_encoded(data.skip(pos));
                lemma_scan_cut(id, data, pos + length);
                let cut = data.take(end);
                lemma_parse_encoded_record(command, data.subrange(pos + length, end));
                assert(cut.skip(pos) =~= data.skip(pos).subrange(0, length as int) + data.subrange(
                    pos + length,
                    end,
                ));
            },
            _ => {
                assert(data.take(pos).len() == pos);
            },
        }
    } else {
        assert(data.take(pos) =~= data);
    }
}

/// Some segment of the log holds the entry's record.
pub open spec fn in_log(log: Seq<SegmentView>, entry: Entry) -> bool {
    exists|s: int| 0 <= s < log.len() && holds(#[trigger] log[s], entry)
}

/// Every entry of a well-formed log lies in the log where its pointer
/// says, and the entries' records follow one another without overlap.
pub proof fn lemma_entries(log: Seq<SegmentView>)
    requires
        well_formed(log),
    ensures
        forall|j: int|
            0 <= j < entries(log).len() ==> in_log(log, #[trigger] entries(log)[j]) && entries(
                log,
            )[j].pointer.length >= 9,
        forall|a: int, b: int|
            0 <= a < b < entries(log).len() ==> precedes(
                (#[trigger] entries(log)[a]).pointer,
                (#[trigger] entries(log)[b]).pointer,
            ),
    decreases log.len(),
{
    if log.len() > 0 {
        let front = log.drop_last();
        let last = log.last();
        let old_entries = entries(front);
        let new_entries = scan(last.id, last.data, 0);
        let all = entries(log);
        assert(well_formed(front)) by {
            assert forall|i: int| 0 <= i < front.len() implies clean((#[trigger] front[i]).data)
                && front[i].data.len() <= u64::MAX by {
                assert(front[i] == log[i]);
            }
            assert forall|i: int, j: int| 0 <= i < j < front.len() implies (#[trigger] front[i]).id
                < (#[trigger] front[j]).id by {
                assert(front[i] == log[i]);
                assert(front[j] == log[j]);
            }
        }
        lemma_entries(front);
        lemma_scan(last.id, last.data, 0);
        assert(last == SegmentView { id: last.id, data: last.data });
        assert forall|j: int| 0 <= j < all.len() implies in_log(log, #[trigger] all[j])
            && all[j].pointer.length >= 9 && (j < old_entries.len() ==> all[j].pointer.segment_id
            < last.id) && (j >= old_entries.len() ==> all[j].pointer.segment_id == last.id) by {
            if j < old_entries.len() {
                assert(all[j] == old_entries[j]);
                let s = choose|s: int| 0 <= s < front.len() && holds(#[trigger] front[s], all[j]);
                assert(front[s] == log[s]);
                assert(holds(log[s], all[j]));
            } else {
                assert(all[j] == new_entries[j - old_entries.len()]);
                assert(holds(log[log.len() - 1], all[j]));
            }
        }
        assert forall|a: int, b: int| 0 <= a < b < all.len() implies precedes(
            (#[trigger] all[a]).pointer,
            (#[trigger] all[b]).pointer,
        ) by {
            if b < old_entries.len() {
                assert(all[a] == old_entries[a]);
                assert(all[b] == old_entries[b]);
            } else if a >= old_entries.len() {
                assert(all[a] == new_entries[a - old_entries.len()]);
                assert(all[b] == new_entries[b - old_entries.len()]);
            }
        }
    }
}

/// Entry `i` is the `Put` that gave `key` its present value, and the index
/// points to it.
pub open spec fn live_at(entries: Seq<Entry>, key: Seq<char>, i: int) -> bool {
    &&& 0 <= i < entries.len()
    &&& entries[i].pointer == index_of(entries)[key]
    &&& entries[i].command == (CommandView::Put { key, value: contents_of(entries)[key] })
}

/// The index has an entry for exactly the keys that have a value, and each
/// of its pointers is that of the `Put` that wrote the value.
pub proof fn lemma_index_tracks_contents(entries: Seq<Entry>)
    ensures
        index_of(entries).dom() == contents_of(entries).dom(),
        index_of(entries).dom().finite(),
        forall|key: Seq<char>| #[trigger]
            index_of(entries).contains_key(key) ==> exists|i: int| live_at(entries, key, i),
    decreases entries.len(),
{
    if entries.len() > 0 {
        let front = entries.drop_last();
        let last = entries.last();
        lemma_index_tracks_contents(front);
        assert(index_of(entries).dom() =~= contents_of(entries).dom());
        assert forall|key: Seq<char>| #[trigger]
            index_of(entries).contains_key(key) implies exists|i: int|
            live_at(entries, key, i) by {
            if key == last.command.key() {
                assert(live_at(entries, key, entries.len() - 1));
            } else {
                assert(index_of(front).contains_key(key));
                let i = choose|i: int| live_at(front, key, i);
                assert(front[i] == entries[i]);
                assert(live_at(entries, key, i));
            }
        }
    } else {
        assert(index_of(entries).dom() =~= contents_of(entries).dom());
    }
}

/// The log after the record of `command` is appended: to the active
/// segment, or, when that one has reached `limit` bytes, to a new segment
/// with the next id.
pub open spec fn appended(log: Seq<SegmentView>, limit: u64, command: CommandView) -> Seq<
    SegmentView,
> {
    let active = log.last();
    if active.data.len() >= limit && active.id < u64::MAX {
        log.push(SegmentView { id: (active.id + 1) as u64, data: encode_command(command) })
    } else {
        log.update(
            log.len() - 1,
            SegmentView { id: active.id, data: active.data + encode_command(command) },
        )
    }
}

/// The pointer to the record that `appended` adds.
pub open spec fn appended_pointer(log: Seq<SegmentView>, limit: u64, command: CommandView)
    -> LogPointer {
    let active = log.last();
    if active.data.len() >= limit && active.id < u64::MAX {
        LogPointer {
            segment_id: (active.id + 1) as u64,
            offset: 0,
            length: encode_command(command).len() as u64,
        }
    } else {
        LogPointer {
            segment_id: active.id,
            offset: active.data.len() as u64,
            length: encode_command(command).len() as u64,
        }
    }
}

/// Appending a record adds one entry to the log, and nothing else changes.
pub proof fn lemma_appended(log: Seq<SegmentView>, limit: u64, command: CommandView)
    requires
        log.len() > 0,
        well_formed(log),
        command.representable(),
        appended(log, limit, command).last().data.len() <= u64::MAX,
    ensures
        well_formed(appended(log, limit, command)),
        entries(appended(log, limit, command)) == entries(log).push(
            (Entry { pointer: appended_pointer(log, limit, command), command }),
        ),
{
    let after = appended(log, limit, command);
    let active = log.last();
    let record = encode_command(command);
    if active.data.len() >= limit && active.id < u64::MAX {
        let id = (active.id + 1) as u64;
        lemma_scan_appended(id, Seq::empty(), command);
        assert(Seq::<u8>::empty() + record =~= record);
        assert(after.drop_last() =~= log);
        assert(scan(id, Seq::<u8>::empty(), 0) =~= Seq::empty());
        assert(entries(after) =~= entries(log).push(
            Entry { pointer: appended_pointer(log, limit, command), command },
        ));
    } else {
        lemma_scan_appended(active.id, active.data, command);
        assert(after.drop_last() =~= log.drop_last());
        assert(entries(after) =~= entries(log).push(
            Entry { pointer: appended_pointer(log, limit, command), command },
        ));
    }
}

/// The number of bytes that the records of the entries take.
pub open spec fn entries_bytes(entries: Seq<Entry>) -> nat
    decreases entries.len(),
{
    if entries.len() == 0 {
        0
    } else {
        entries_bytes(entries.drop_last()) + entries.last().pointer.length as nat
    }
}

/// The bytes of two runs of entries add up.
pub proof fn lemma_entries_bytes_concat(first: Seq<Entry>, second: Seq<Entry>)
    ensures
        entries_bytes(first + second) == entries_bytes(first) + entries_bytes(second),
    decreases second.len(),
{
    if second.len() == 0 {
        assert(first + second =~= first);
    } else {
        lemma_entries_bytes_concat(first, second.drop_last());
        assert((first + second).drop_last() =~= first + second.drop_last());
    }
}

/// The records that a scan finds fill the data that it passes over.
pub proof fn lemma_scan_bytes(id: u64, data: Seq<u8>, pos: int)
    requires
        0 <= pos <= data.len() <= u64::MAX,
    ensures
        entries_bytes(scan(id, data, pos)) == scan_end(data, pos) - pos,
    decreases data.len() - pos,
{
    if pos < data.len() {
        match parse_record(data.skip(pos)) {
            RecordParse::Record { command, length } => {
                lemma_parsed_record_is_encoded(data.skip(pos));
                lemma_scan_bytes(id, data, pos + length);
                let head = seq![entry_at(id, pos, command, length)];
                lemma_entries_bytes_concat(head, scan(id, data, pos + length));
                assert(head.drop_last() =~= Seq::empty());
                assert(entries_bytes(head) == length) by {
                    assert(entries_bytes(head.drop_last()) == 0);
                }
            },
            _ => {},
        }
    }
}

/// The records of a well-formed log fill it.
pub proof fn lemma_log_bytes(log: Seq<SegmentView>)
    requires
        well_formed(log),
    ensures
        entries_bytes(entries(log)) == total_bytes(log),
    decreases log.len(),
{
    if log.len() > 0 {
        let front = log.drop_last();
        assert(well_formed(front)) by {
            lemma_well_formed_front(log);
        }
        lemma_log_bytes(front);
        lemma_scan_bytes(log.last().id, log.last().data, 0);
        lemma_entries_bytes_concat(entries(front), scan(log.last().id, log.last().data, 0));
    }
}

/// A well-formed log without its last segment is well-formed.
pub proof fn lemma_well_formed_front(log: Seq<SegmentView>)
    requires
        well_formed(log),
        log.len() > 0,
    ensures
        well_formed(log.drop_last()),
{
    let front = log.drop_last();
    assert forall|i: int| 0 <= i < front.len() implies clean((#[trigger] front[i]).data)
        && front[i].data.len() <= u64::MAX by {
        assert(front[i] == log[i]);
    }
    assert forall|i: int, j: int| 0 <= i < j < front.len() implies (#[trigger] front[i]).id < (
    #[trigger] front[j]).id by {
        assert(front[i] == log[i]);
        assert(front[j] == log[j]);
    }
}

/// The record of every entry of a well-formed log is as long as its
/// pointer says, and is the record of a representable command.
pub proof fn lemma_entry_records(log: Seq<SegmentView>, i: int)
    requires
        well_formed(log),
        0 <= i < entries(log).len(),
    ensures
        entries(log)[i].command.representable(),
        encode_command(entries(log)[i].command).len() == entries(log)[i].pointer.length,
{
    lemma_entries(log);
    let e = entries(log)[i];
    assert(in_log(log, e));
    let s = choose|s: int| 0 <= s < log.len() && holds(#[trigger] log[s], e);
    lemma_parsed_record_is_encoded(log[s].data.skip(e.pointer.offset as int));
}

/// A log of segments that fit their offsets is no larger than their
/// number allows.
pub proof fn lemma_total_bytes_bound(log: Seq<SegmentView>)
    requires
        forall|i: int| 0 <= i < log.len() ==> (#[trigger] log[i]).data.len() <= u64::MAX,
    ensures
        total_bytes(log) <= log.len() * u64::MAX,
    decreases log.len(),
{
    if log.len() > 0 {
        let front = log.drop_last();
        assert forall|i: int| 0 <= i < front.len() implies (#[trigger] front[i]).data.len()
            <= u64::MAX by {
            assert(front[i] == log[i]);
        }
        lemma_total_bytes_bound(front);
        assert(log.last() == log[log.len() - 1]);
    }
}

/// Appending a record grows the log by the record.
pub proof fn lemma_total_bytes_appended(log: Seq<SegmentView>, limit: u64, command: CommandView)
    requires
        log.len() > 0,
    ensures
        total_bytes(appended(log, limit, command)) == total_bytes(log) + encode_command(
            command,
        ).len(),
{
    let after = appended(log, limit, command);
    let active = log.last();
    if active.data.len() >= limit && active.id < u64::MAX {
        assert(after.drop_last() =~= log);
    } else {
        assert(after.drop_last() =~= log.drop_last());
    }
}

/// The segment holds the record of `command` in the bytes that `pointer`
/// names.
pub open spec fn stored_at(segment: SegmentView, pointer: LogPointer, command: CommandView)
    -> bool {
    &&& segment.id == pointer.segment_id
    &&& pointer.offset + pointer.length <= segment.data.len()
    &&& segment.data.subrange(pointer.offset as int, pointer.offset + pointer.length)
        == encode_command(command)
    &&& command.representable()
}

/// The pointer locates the record of `command` in the log.
pub open spec fn locates(log: Seq<SegmentView>, pointer: LogPointer, command: CommandView)
    -> bool {
    exists|s: int| 0 <= s < log.len() && stored_at(#[trigger] log[s], pointer, command)
}

/// The index's pointer for a key locates the `Put` that wrote the key's
/// value.
pub proof fn lemma_index_locates(log: Seq<SegmentView>, key: Seq<char>)
    requires
        well_formed(log),
        index_of(entries(log)).contains_key(key),
    ensures
        contents_of(entries(log)).contains_key(key),
        locates(
            log,
            index_of(entries(log))[key],
            (CommandView::Put { key, value: contents_of(entries(log))[key] }),
        ),
{
    let es = entries(log);
    lemma_index_tracks_contents(es);
    lemma_entries(log);
    let i = choose|i: int| live_at(es, key, i);
    assert(in_log(log, es[i]));
    let s = choose|s: int| 0 <= s < log.len() && holds(#[trigger] log[s], es[i]);
    let pointer = es[i].pointer;
    let data = log[s].data;
    lemma_parsed_record_is_encoded(data.skip(pointer.offset as int));
    assert(data.skip(pointer.offset as int).subrange(0, pointer.length as int) =~= data.subrange(
        pointer.offset as int,
        pointer.offset + pointer.length,
    ));
    assert(stored_at(log[s], pointer, es[i].command));
}

/// A pointer locates at most one command.
pub proof fn lemma_located_once(
    log: Seq<SegmentView>,
    pointer: LogPointer,
    first: CommandView,
    second: CommandView,
)
    requires
        ascending(log),
        locates(log, pointer, first),
        locates(log, pointer, second),
    ensures
        first == second,
{
    let s = choose|s: int| 0 <= s < log.len() && stored_at(#[trigger] log[s], pointer, first);
    let t = choose|t: int| 0 <= t < log.len() && stored_at(#[trigger] log[t], pointer, second);
    if s < t {
        assert(log[s].id < log[t].id);
    }
    if t < s {
        assert(log[t].id < log[s].id);
    }
    lemma_encode_injective(first, second);
}

/// One step of a scan: the record at `pos` is the first entry from there,
/// and the scan goes on behind it.
pub proof fn lemma_scan_step(id: u64, data: Seq<u8>, pos: int)
    requires
        0 <= pos < data.len(),
        parse_record(data.skip(pos)) is Record,
    ensures
        ({
            let command = parse_record(data.skip(pos))->command;
            let length = parse_record(data.skip(pos))->length;
            &&& 9 <= length
            &&& pos + length <= data.len()
            &&& command.representable()
            &&& data.subrange(pos, pos + length) == encode_command(command)
            &&& scan(id, data, pos) == seq![entry_at(id, pos, command, length)] + scan(
                id,
                data,
                pos + length,
            )
            &&& scan_end(data, pos) == scan_end(data, pos + length)
        }),
{
    let length = parse_record(data.skip(pos))->length;
    lemma_parsed_record_is_encoded(data.skip(pos));
    assert(data.skip(pos).subrange(0, length as int) =~= data.subrange(pos, pos + length));
}

/// The pointer to an appended record locates it.
pub proof fn lemma_appended_located(log: Seq<SegmentView>, limit: u64, command: CommandView)
    requires
        log.len() > 0,
        command.representable(),
        appended(log, limit, command).last().data.len() <= u64::MAX,
    ensures
        locates(appended(log, limit, command), appended_pointer(log, limit, command), command),
{
    let after = appended(log, limit, command);
    let pointer = appended_pointer(log, limit, command);
    let record = encode_command(command);
    let active = log.last();
    if active.data.len() >= limit && active.id < u64::MAX {
        assert(after.last().data.subrange(0, record.len() as int) =~= record);
    } else {
        assert(after.last().data.subrange(
            active.data.len() as int,
            (active.data.len() + record.len()) as int,
        ) =~= record);
    }
    assert(stored_at(after[after.len() - 1], pointer, command));
}

/// The log with the record of `command` added to its last segment.
pub open spec fn extended(log: Seq<SegmentView>, command: CommandView) -> Seq<SegmentView> {
    log.update(
        log.len() - 1,
        SegmentView { id: log.last().id, data: log.last().data + encode_command(command) },
    )
}

/// The pointer to the record that `extended` adds.
pub open spec fn extended_pointer(log: Seq<SegmentView>, command: CommandView) -> LogPointer {
    LogPointer {
        segment_id: log.last().id,
        offset: log.last().data.len() as u64,
        length: encode_command(command).len() as u64,
    }
}

/// A record added to the last segment adds one entry to the log.
pub proof fn lemma_extended(log: Seq<SegmentView>, command: CommandView)
    requires
        log.len() > 0,
        well_formed(log),
        command.representable(),
        log.last().data.len() + encode_command(command).len() <= u64::MAX,
    ensures
        well_formed(extended(log, command)),
        entries(extended(log, command)) == entries(log).push(
            (Entry { pointer: extended_pointer(log, command), command }),
        ),
        total_bytes(extended(log, command)) == total_bytes(log) + encode_command(command).len(),
{
    let after = extended(log, command);
    let active = log.last();
    lemma_scan_appended(active.id, active.data, command);
    assert(after.drop_last() =~= log.drop_last());
    assert(entries(after) =~= entries(log).push(
        Entry { pointer: extended_pointer(log, command), command },
    ));
}

/// A segment with no records.
pub open spec fn empty_segment(id: u64) -> SegmentView {
    SegmentView { id, data: Seq::empty() }
}

/// A new, empty segment with a greater id adds nothing to the entries.
pub proof fn lemma_opened_segment(log: Seq<SegmentView>, id: u64)
    requires
        well_formed(log),
        log.len() > 0 ==> log.last().id < id,
    ensures
        well_formed(log.push(empty_segment(id))),
        entries(log.push(empty_segment(id))) == entries(log),
        total_bytes(log.push(empty_segment(id))) == total_bytes(log),
{
    let after = log.push(SegmentView { id, data: Seq::empty() });
    assert(after.drop_last() =~= log);
    assert(scan(id, Seq::<u8>::empty(), 0) =~= Seq::empty());
    assert(entries(after) =~= entries(log));
    assert forall|i: int, j: int| 0 <= i < j < after.len() implies (#[trigger] after[i]).id < (
    #[trigger] after[j]).id by {
        if j == log.len() {
            if i < log.len() - 1 {
                assert(log[i].id < log[log.len() - 1].id);
            }
        } else {
            assert(after[i] == log[i] && after[j] == log[j]);
        }
    }
    assert forall|i: int| 0 <= i < after.len() implies clean((#[trigger] after[i]).data)
        && after[i].data.len() <= u64::MAX by {
        if i < log.len() {
            assert(after[i] == log[i]);
        }
    }
}

/// The entries of two logs, one after the other, are the entries of the
/// one and then those of the other.
pub proof fn lemma_entries_concat(first: Seq<SegmentView>, second: Seq<SegmentView>)
    ensures
        entries(first + second) == entries(first) + entries(second),
    decreases second.len(),
{
    if second.len() == 0 {
        assert(first + second =~= first);
        assert(entries(first) + entries(second) =~= entries(first));
    } else {
        lemma_entries_concat(first, second.drop_last());
        assert((first + second).drop_last() =~= first + second.drop_last());
        assert((first + second).last() == second.last());
        assert(entries(first + second) =~= entries(first) + entries(second));
    }
}

/// What the later entries of a log bind, the whole log binds the same way:
/// entries that come first never undo what comes after them.
pub proof fn lemma_replay_suffix(first: Seq<Entry>, second: Seq<Entry>)
    ensures
        contents_of(second).submap_of(contents_of(first + second)),
    decreases second.len(),
{
    if second.len() > 0 {
        lemma_replay_suffix(first, second.drop_last());
        assert((first + second).drop_last() =~= first + second.drop_last());
        assert((first + second).last() == second.last());
    }
}

/// Replaying `Put`s behind other entries adds their bindings to what the
/// other entries bind.
pub proof fn lemma_replay_puts(first: Seq<Entry>, second: Seq<Entry>)
    requires
        forall|i: int| 0 <= i < second.len() ==> (#[trigger] second[i]).command is Put,
    ensures
        contents_of(first + second) == contents_of(first).union_prefer_right(contents_of(second)),
    decreases second.len(),
{
    if second.len() == 0 {
        assert(first + second =~= first);
        assert(contents_of(first + second) =~= contents_of(first).union_prefer_right(
            contents_of(second),
        ));
    } else {
        let fewer = second.drop_last();
        assert forall|i: int| 0 <= i < fewer.len() implies (#[trigger] fewer[i]).command is Put by {
            assert(fewer[i] == second[i]);
        }
        lemma_replay_puts(first, fewer);
        assert((first + second).drop_last() =~= first + fewer);
        assert((first + second).last() == second.last());
        assert(second[second.len() - 1].command is Put);
        assert(contents_of(first + second) =~= contents_of(first).union_prefer_right(
            contents_of(second),
        ));
    }
}

/// A clean segment with a greater id behind a log adds its entries behind
/// those of the log.
pub proof fn lemma_followed(log: Seq<SegmentView>, segment: SegmentView)
    requires
        well_formed(log),
        log.len() > 0 ==> log.last().id < segment.id,
        clean(segment.data),
        segment.data.len() <= u64::MAX,
    ensures
        well_formed(log.push(segment)),
        entries(log.push(segment)) == entries(log) + scan(segment.id, segment.data, 0),
{
    let after = log.push(segment);
    assert(after.drop_last() =~= log);
    assert forall|i: int, j: int| 0 <= i < j < after.len() implies (#[trigger] after[i]).id < (
    #[trigger] after[j]).id by {
        if j == log.len() {
            if i < log.len() - 1 {
                assert(log[i].id < log[log.len() - 1].id);
            }
        } else {
            assert(after[i] == log[i] && after[j] == log[j]);
        }
    }
    assert forall|i: int| 0 <= i < after.len() implies clean((#[trigger] after[i]).data)
        && after[i].data.len() <= u64::MAX by {
        if i < log.len() {
            assert(after[i] == log[i]);
        }
    }
}

} // verus!
