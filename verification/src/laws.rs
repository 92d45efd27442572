//! Laws that the operations of the store obey.
//!
//! Each law is stated over the logs that the operations leave, with the
//! functions that the operations' own contracts use: `after_set`,
//! `after_remove` and `value_of` for `set`, `remove` and `get`, `compacted`
//! for `compact`, and `recovers` for `open`.
use crate::command::{
    decode_command, encode_command, lemma_decode_command, lemma_parse_cut_record, CommandView,
};
use crate::compaction::{
    compacted, compacting, lemma_compacted, lemma_live_records_are_puts,
    lemma_live_records_grow, lemma_live_records_replay, live_bytes, live_records,
};
use crate::error::KvsError;
use crate::log::{
    appended, appended_pointer, ascending, clean, contents_of, corrupt, empty_segment,
    entries, index_of, lemma_appended, lemma_entries_concat, lemma_followed,
    lemma_index_locates, lemma_index_tracks_contents, lemma_opened_segment, lemma_replay_push,
    lemma_replay_puts, lemma_replay_suffix, lemma_scan_extended, locates, scan, scan_end,
    total_bytes, well_formed, whole_records, Entry, SegmentView,
};
use crate::medium::{dropped, written};
use crate::recovery::{
    any_corrupt, lemma_recovered, occurs, recovered, recovered_from, recovers, repeated_id,
};
use crate::store::{after_remove, after_set, should_compact, value_of, Config};
use vstd::prelude::*;

verus! {

/// The record of the command fits the segment that it is appended to, and
/// the live records of the log that it leaves fit one segment: what holds
/// of every log that a machine can keep.
pub open spec fn fits(log: Seq<SegmentView>, config: Config, command: CommandView) -> bool {
    let written = appended(log, config.segment_limit, command);
    &&& command.representable()
    &&& written.last().data.len() <= u64::MAX
    &&& live_bytes(written) <= u64::MAX
}

/// Decoding the record of a command gives the command back.
pub proof fn law_round_trip(command: CommandView)
    requires
        command.representable(),
    ensures
        decode_command(encode_command(command)) == Some(command),
{
    lemma_decode_command(encode_command(command), command);
}

/// `set` leaves a log in good order in which the key has the value, and
/// every other key what it had.
pub proof fn law_set(log: Seq<SegmentView>, config: Config, key: Seq<char>, value: Seq<char>)
    requires
        log.len() > 0,
        well_formed(log),
        fits(log, config, (CommandView::Put { key, value })),
    ensures
        after_set(log, config, key, value).len() > 0,
        well_formed(after_set(log, config, key, value)),
        contents_of(entries(after_set(log, config, key, value))) == contents_of(
            entries(log),
        ).insert(key, value),
        value_of(after_set(log, config, key, value), key) == Some(value),
{
    let command = CommandView::Put { key, value };
    let written = appended(log, config.segment_limit, command);
    lemma_appended(log, config.segment_limit, command);
    lemma_replay_push(
        entries(log),
        Entry { pointer: appended_pointer(log, config.segment_limit, command), command },
    );
    if should_compact(written, config) && written.last().id < u64::MAX {
        lemma_compacted(written);
    }
}

/// `remove` of a key that has a value leaves a log in good order in which
/// the key has none, and every other key what it had.
pub proof fn law_remove(log: Seq<SegmentView>, config: Config, key: Seq<char>)
    requires
        log.len() > 0,
        well_formed(log),
        fits(log, config, (CommandView::Remove { key })),
        value_of(log, key) is Some,
    ensures
        after_remove(log, config, key) is Ok,
        after_remove(log, config, key)->Ok_0.len() > 0,
        well_formed(after_remove(log, config, key)->Ok_0),
        contents_of(entries(after_remove(log, config, key)->Ok_0)) == contents_of(
            entries(log),
        ).remove(key),
        value_of(after_remove(log, config, key)->Ok_0, key) is None,
{
    let command = CommandView::Remove { key };
    lemma_appended(log, config.segment_limit, command);
    lemma_replay_push(
        entries(log),
        Entry { pointer: appended_pointer(log, config.segment_limit, command), command },
    );
}

/// The last write wins: after two `set`s of a key, the key has the second
/// value.
pub proof fn law_overwrite(
    log: Seq<SegmentView>,
    config: Config,
    key: Seq<char>,
    first: Seq<char>,
    second: Seq<char>,
)
    requires
        log.len() > 0,
        well_formed(log),
        fits(log, config, (CommandView::Put { key, value: first })),
        fits(
            after_set(log, config, key, first),
            config,
            (CommandView::Put { key, value: second }),
        ),
    ensures
        value_of(after_set(after_set(log, config, key, first), config, key, second), key) == Some(
            second,
        ),
{
    law_set(log, config, key, first);
    law_set(after_set(log, config, key, first), config, key, second);
}

/// After `set` and `remove` of a key, the key has no value, and a second
/// `remove` of it fails with `KeyNotFound`.
pub proof fn law_set_then_remove(
    log: Seq<SegmentView>,
    config: Config,
    key: Seq<char>,
    value: Seq<char>,
)
    requires
        log.len() > 0,
        well_formed(log),
        fits(log, config, (CommandView::Put { key, value })),
        fits(after_set(log, config, key, value), config, (CommandView::Remove { key })),
    ensures
        after_remove(after_set(log, config, key, value), config, key) is Ok,
        value_of(after_remove(after_set(log, config, key, value), config, key)->Ok_0, key) is None,
        after_remove(
            after_remove(after_set(log, config, key, value), config, key)->Ok_0,
            config,
            key,
        ) == Err::<Seq<SegmentView>, KvsError>(KvsError::KeyNotFound),
{
    law_set(log, config, key, value);
    law_remove(after_set(log, config, key, value), config, key);
}

/// Compaction keeps the value of every key, and does not grow the log.
pub proof fn law_compaction(log: Seq<SegmentView>)
    requires
        log.len() > 0,
        well_formed(log),
        live_bytes(log) <= u64::MAX,
    ensures
        well_formed(compacted(log)),
        forall|key: Seq<char>| value_of(compacted(log), key) == value_of(log, key),
        total_bytes(compacted(log)) <= total_bytes(log),
{
    if log.last().id < u64::MAX {
        lemma_compacted(log);
    }
}

/// A compaction that stops while it writes loses nothing: with the new
/// segment as far as written behind the old segments, every key has the
/// value that it had.
pub proof fn law_compaction_interrupted_writing(log: Seq<SegmentView>, n: int)
    requires
        log.len() > 0,
        well_formed(log),
        log.last().id < u64::MAX,
        0 <= n <= entries(log).len(),
        live_bytes(log) <= u64::MAX,
    ensures
        well_formed(compacting(log, n)),
        forall|key: Seq<char>| value_of(compacting(log, n), key) == value_of(log, key),
{
    let es = entries(log);
    let index = index_of(es);
    let id = (log.last().id + 1) as u64;
    let data = live_records(es.take(n), index);
    let segment = SegmentView { id, data };
    let written = scan(id, data, 0);
    lemma_live_records_grow(es, index, n);
    lemma_live_records_replay(log, id, n);
    lemma_live_records_are_puts(log, id, n);
    lemma_index_tracks_contents(es);
    lemma_followed(log, segment);
    lemma_replay_puts(es, written);
    assert(contents_of(es + written) =~= contents_of(es));
}

/// A compaction that stops while it drops the old segments, oldest first,
/// loses nothing: with the new segment behind the old segments that are
/// left, every key has the value that it had.
pub proof fn law_compaction_interrupted_dropping(log: Seq<SegmentView>, dropped: int)
    requires
        log.len() > 0,
        well_formed(log),
        log.last().id < u64::MAX,
        0 <= dropped <= log.len(),
        live_bytes(log) <= u64::MAX,
    ensures
        well_formed(log.skip(dropped) + compacted(log)),
        forall|key: Seq<char>|
            value_of(log.skip(dropped) + compacted(log), key) == value_of(log, key),
{
    let es = entries(log);
    let id = (log.last().id + 1) as u64;
    let left = log.skip(dropped);
    let segment = compacted(log)[0];
    let written = entries(compacted(log));
    lemma_compacted(log);
    assert(es.take(es.len() as int) =~= es);
    lemma_live_records_are_puts(log, id, es.len() as int);
    assert(log.take(dropped) + left =~= log);
    lemma_entries_concat(log.take(dropped), left);
    lemma_replay_suffix(entries(log.take(dropped)), entries(left));
    assert forall|i: int| 0 <= i < left.len() implies clean((#[trigger] left[i]).data)
        && left[i].data.len() <= u64::MAX by {
        assert(left[i] == log[i + dropped]);
    }
    assert forall|i: int, j: int| 0 <= i < j < left.len() implies (#[trigger] left[i]).id < (
    #[trigger] left[j]).id by {
        assert(left[i] == log[i + dropped] && left[j] == log[j + dropped]);
    }
    if left.len() > 0 {
        assert(left.last() == log.last());
    }
    lemma_followed(left, segment);
    assert(left + compacted(log) =~= left.push(segment));
    lemma_replay_puts(entries(left), written);
    assert(contents_of(entries(left) + written) =~= contents_of(es));
}

/// What recovery makes of segments that are in the order of their ids is
/// what is recovered of each, in that order.
pub proof fn lemma_recovery_in_order(found: Seq<SegmentView>, reopened: Seq<SegmentView>)
    requires
        found.len() > 0,
        ascending(found),
        recovers(reopened, found),
    ensures
        reopened.len() == found.len(),
        forall|i: int| 0 <= i < found.len() ==> reopened[i] == recovered(#[trigger] found[i]),
    decreases found.len(),
{
    let n = found.len() as int;
    assert(recovered_from(reopened, n - 1, found));
    let i = choose|i: int| 0 <= i < n && reopened[n - 1] == recovered(#[trigger] found[i]);
    assert(occurs(reopened, recovered(found[n - 1])));
    let j = choose|j: int| 0 <= j < n && #[trigger] reopened[j] == recovered(found[n - 1]);
    if i < n - 1 {
        assert(found[i].id < found[n - 1].id);
    }
    if j < n - 1 {
        assert(reopened[j].id < reopened[n - 1].id);
    }
    assert(reopened[n - 1] == recovered(found[n - 1]));
    if n > 1 {
        let fewer = found.drop_last();
        let front = reopened.drop_last();
        assert forall|a: int, b: int| 0 <= a < b < fewer.len() implies (#[trigger] fewer[a]).id < (
        #[trigger] fewer[b]).id by {
            assert(fewer[a] == found[a] && fewer[b] == found[b]);
        }
        assert forall|a: int, b: int| 0 <= a < b < front.len() implies (#[trigger] front[a]).id < (
        #[trigger] front[b]).id by {
            assert(front[a] == reopened[a] && front[b] == reopened[b]);
        }
        assert forall|a: int| 0 <= a < fewer.len() implies occurs(
            front,
            recovered(#[trigger] fewer[a]),
        ) by {
            assert(fewer[a] == found[a]);
            assert(occurs(reopened, recovered(found[a])));
            let t = choose|t: int| 0 <= t < n && #[trigger] reopened[t] == recovered(found[a]);
            assert(found[a].id < found[n - 1].id);
            assert(front[t] == reopened[t]);
        }
        assert forall|t: int| 0 <= t < front.len() implies #[trigger] recovered_from(
            front,
            t,
            fewer,
        ) by {
            assert(recovered_from(reopened, t, found));
            let a = choose|a: int| 0 <= a < n && reopened[t] == recovered(#[trigger] found[a]);
            assert(reopened[t].id < reopened[n - 1].id);
            assert(fewer[a] == found[a]);
        }
        lemma_recovery_in_order(fewer, front);
        assert forall|a: int| 0 <= a < found.len() implies reopened[a] == recovered(
            #[trigger] found[a],
        ) by {
            if a < n - 1 {
                assert(fewer[a] == found[a]);
                assert(front[a] == reopened[a]);
            }
        }
    }
}

/// Opening a store on the log of a store succeeds and recovers that log,
/// and with it the value of every key.
pub proof fn law_persistence(log: Seq<SegmentView>, reopened: Seq<SegmentView>)
    requires
        log.len() > 0,
        well_formed(log),
        recovers(reopened, log),
    ensures
        !repeated_id(log),
        !any_corrupt(log),
        reopened == log,
        forall|key: Seq<char>| value_of(reopened, key) == value_of(log, key),
{
    lemma_recovery_in_order(log, reopened);
    assert forall|i: int| 0 <= i < log.len() implies recovered(#[trigger] log[i]) == log[i]
        && !corrupt(log[i].data) by {
        lemma_recovered(log[i].data);
        assert(log[i].data.skip(log[i].data.len() as int) =~= Seq::empty());
    }
    assert(reopened =~= log);
}

/// A value that was set is there when the store is reopened on its log.
pub proof fn law_set_survives_reopening(
    log: Seq<SegmentView>,
    config: Config,
    key: Seq<char>,
    value: Seq<char>,
    reopened: Seq<SegmentView>,
)
    requires
        log.len() > 0,
        well_formed(log),
        fits(log, config, (CommandView::Put { key, value })),
        recovers(reopened, after_set(log, config, key, value)),
    ensures
        !repeated_id(after_set(log, config, key, value)),
        !any_corrupt(after_set(log, config, key, value)),
        value_of(reopened, key) == Some(value),
{
    law_set(log, config, key, value);
    law_persistence(after_set(log, config, key, value), reopened);
}

/// A store opened on no segments is empty: its log has no entries, and no
/// key has a value.
pub proof fn law_open_on_nothing(reopened: Seq<SegmentView>)
    requires
        recovers(reopened, Seq::empty()),
    ensures
        reopened == seq![empty_segment(0)],
        well_formed(reopened),
        entries(reopened) == Seq::<Entry>::empty(),
        forall|key: Seq<char>| value_of(reopened, key) is None,
{
    lemma_opened_segment(Seq::empty(), 0);
    assert(reopened =~= Seq::<SegmentView>::empty().push(empty_segment(0)));
    assert(entries(Seq::<SegmentView>::empty()) =~= Seq::empty());
}

/// The index of a log in good order has an entry for a key exactly when
/// the latest command for the key is a `Put`, and the entry's pointer
/// locates that command.
pub proof fn law_index(log: Seq<SegmentView>, key: Seq<char>)
    requires
        well_formed(log),
    ensures
        index_of(entries(log)).contains_key(key) <==> value_of(log, key) is Some,
        index_of(entries(log)).contains_key(key) ==> locates(
            log,
            index_of(entries(log))[key],
            (CommandView::Put { key, value: value_of(log, key)->0 }),
        ),
{
    lemma_index_tracks_contents(entries(log));
    if index_of(entries(log)).contains_key(key) {
        lemma_index_locates(log, key);
    }
}

/// The log whose last segment has, behind its records, the first `cut`
/// bytes of the record of `command`: what a crash in the middle of a write
/// leaves.
pub open spec fn cut_off(log: Seq<SegmentView>, command: CommandView, cut: int) -> Seq<
    SegmentView,
> {
    log.update(
        log.len() - 1,
        SegmentView {
            id: log.last().id,
            data: log.last().data + encode_command(command).take(cut),
        },
    )
}

/// A record cut off at the end of a segment is dropped, and nothing else:
/// what is recovered of the segment is the records before it.
pub proof fn lemma_cut_off_segment(data: Seq<u8>, command: CommandView, cut: int)
    requires
        clean(data),
        command.representable(),
        0 <= cut < encode_command(command).len(),
    ensures
        !corrupt(data + encode_command(command).take(cut)),
        whole_records(data + encode_command(command).take(cut)) == data,
{
    let extra = encode_command(command).take(cut);
    let damaged = data + extra;
    lemma_scan_extended(0, data, 0, extra);
    lemma_parse_cut_record(command, cut);
    assert(damaged.skip(data.len() as int) =~= extra);
    assert(scan_end(damaged, data.len() as int) == data.len());
    assert(damaged.take(data.len() as int) =~= data);
}

/// Opening a store on a log whose last record was cut off by a crash
/// succeeds, and recovers the log as it was before that record.
pub proof fn law_crash_recovery(
    log: Seq<SegmentView>,
    command: CommandView,
    cut: int,
    reopened: Seq<SegmentView>,
)
    requires
        log.len() > 0,
        well_formed(log),
        command.representable(),
        0 <= cut < encode_command(command).len(),
        recovers(reopened, cut_off(log, command, cut)),
    ensures
        !repeated_id(cut_off(log, command, cut)),
        !any_corrupt(cut_off(log, command, cut)),
        reopened == log,
{
    let damaged = cut_off(log, command, cut);
    assert forall|i: int| 0 <= i < damaged.len() implies recovered(#[trigger] damaged[i])
        == log[i] && !corrupt(damaged[i].data) && damaged[i].id == log[i].id by {
        if i == log.len() - 1 {
            lemma_cut_off_segment(log[i].data, command, cut);
        } else {
            lemma_recovered(log[i].data);
            assert(log[i].data.skip(log[i].data.len() as int) =~= Seq::empty());
        }
    }
    assert forall|a: int, b: int| 0 <= a < b < damaged.len() implies (#[trigger] damaged[a]).id < (
    #[trigger] damaged[b]).id by {
        assert(log[a].id < log[b].id);
    }
    lemma_recovery_in_order(damaged, reopened);
    assert forall|i: int| 0 <= i < log.len() implies reopened[i] == log[i] by {
        assert(reopened[i] == recovered(damaged[i]));
    }
    assert(reopened =~= log);
}

} // verus!
