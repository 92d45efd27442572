//! Compaction: rewriting the live records of a log into one new segment.
//!
//! A record is live when the index points to it. Everything else in the log
//! is dead: values that were overwritten or removed, and the removals
//! themselves.
use crate::command::encode_command;
use crate::log::{
    clean, contents_of, entries, entries_bytes, entry_at, index_of, lemma_entries,
    lemma_entry_records, lemma_index_tracks_contents, lemma_log_bytes, lemma_replay_push,
    lemma_scan_appended, live_at, precedes, scan, total_bytes, well_formed, Entry, LogPointer,
    SegmentView,
};
use crate::medium::written;
use vstd::prelude::*;

verus! {

/// The entry is the one that the index points to for its key.
pub open spec fn live(index: Map<Seq<char>, LogPointer>, entry: Entry) -> bool {
    &&& entry.command is Put
    &&& index.contains_key(entry.command.key())
    &&& index[entry.command.key()] == entry.pointer
}

/// The records of those entries that are live under `index`, in order.
pub open spec fn live_records(entries: Seq<Entry>, index: Map<Seq<char>, LogPointer>) -> Seq<u8>
    decreases entries.len(),
{
    if entries.len() == 0 {
        Seq::empty()
    } else if live(index, entries.last()) {
        live_records(entries.drop_last(), index) + encode_command(entries.last().command)
    } else {
        live_records(entries.drop_last(), index)
    }
}

/// The log after compaction: one new segment, with the next id, that holds
/// the live records of the old log and nothing else. A log whose ids are
/// used up is left as it is.
pub open spec fn compacted(log: Seq<SegmentView>) -> Seq<SegmentView> {
    if log.last().id < u64::MAX {
        seq![
            SegmentView {
                id: (log.last().id + 1) as u64,
                data: live_records(entries(log), index_of(entries(log))),
            },
        ]
    } else {
        log
    }
}

/// The number of bytes of the log that live records take.
pub open spec fn live_bytes(log: Seq<SegmentView>) -> nat {
    live_records(entries(log), index_of(entries(log))).len()
}

/// The number of bytes of the log that belong to records which the index
/// no longer reflects: superseded and removed values, and the removals
/// themselves.
pub open spec fn dead_bytes(log: Seq<SegmentView>) -> int {
    total_bytes(log) - live_bytes(log)
}

/// The live records of some entries take no more bytes than all their
/// records.
pub proof fn lemma_live_records_bytes(
    log: Seq<SegmentView>,
    index: Map<Seq<char>, LogPointer>,
    n: int,
)
    requires
        well_formed(log),
        0 <= n <= entries(log).len(),
    ensures
        live_records(entries(log).take(n), index).len() <= entries_bytes(entries(log).take(n)),
    decreases n,
{
    if n > 0 {
        let es = entries(log);
        lemma_live_records_bytes(log, index, n - 1);
        lemma_entry_records(log, n - 1);
        assert(es.take(n).drop_last() =~= es.take(n - 1));
    }
}

/// Compaction does not grow the log.
pub proof fn lemma_compaction_shrinks(log: Seq<SegmentView>)
    requires
        log.len() > 0,
        well_formed(log),
    ensures
        total_bytes(compacted(log)) <= total_bytes(log),
{
    let es = entries(log);
    lemma_live_records_bytes(log, index_of(es), es.len() as int);
    assert(es.take(es.len() as int) =~= es);
    lemma_log_bytes(log);
    let after = compacted(log);
    if log.last().id < u64::MAX {
        assert(after.drop_last() =~= Seq::empty());
        assert(total_bytes(after.drop_last()) == 0);
    }
}

/// What compaction has written once it has passed the first `n` entries:
/// clean data whose replay binds exactly the keys whose live entry is
/// among those `n`, each to its value.
pub proof fn lemma_live_records_replay(log: Seq<SegmentView>, id: u64, n: int)
    requires
        well_formed(log),
        0 <= n <= entries(log).len(),
    ensures
        clean(live_records(entries(log).take(n), index_of(entries(log)))),
        forall|key: Seq<char>|
            #![trigger contents_of(scan(id, live_records(entries(log).take(n), index_of(entries(log))), 0)).contains_key(key)]
            ({
                let written = contents_of(
                    scan(id, live_records(entries(log).take(n), index_of(entries(log))), 0),
                );
                &&& written.contains_key(key) <==> index_of(entries(log)).contains_key(key)
                    && exists|i: int| 0 <= i < n && live_at(entries(log), key, i)
                &&& written.contains_key(key) ==> written[key] == contents_of(entries(log))[key]
            }),
    decreases n,
{
    let es = entries(log);
    let index = index_of(es);
    let data = live_records(es.take(n), index);
    if n == 0 {
        assert(data =~= Seq::empty());
        assert(scan(id, data, 0) =~= Seq::empty());
    } else {
        let before = live_records(es.take(n - 1), index);
        let entry = es[n - 1];
        assert(es.take(n).drop_last() =~= es.take(n - 1));
        lemma_live_records_replay(log, id, n - 1);
        let written_before = contents_of(scan(id, before, 0));
        let written = contents_of(scan(id, data, 0));
        if live(index, entry) {
            let key = entry.command.key();
            lemma_index_tracks_contents(es);
            lemma_entries(log);
            lemma_entry_records(log, n - 1);
            let i = choose|i: int| live_at(es, key, i);
            if i < n - 1 {
                assert(precedes(es[i].pointer, es[n - 1].pointer));
            }
            if i > n - 1 {
                assert(precedes(es[n - 1].pointer, es[i].pointer));
            }
            assert(i == n - 1);
            lemma_scan_appended(id, before, entry.command);
            lemma_replay_push(
                scan(id, before, 0),
                entry_at(id, before.len() as int, entry.command, encode_command(entry.command).len()),
            );
            assert forall|k: Seq<char>|
                #![trigger written.contains_key(k)]
                {
                    &&& written.contains_key(k) <==> index.contains_key(k) && exists|i: int|
                        0 <= i < n && live_at(es, k, i)
                    &&& written.contains_key(k) ==> written[k] == contents_of(es)[k]
                } by {
                if k == key {
                    assert(live_at(es, k, n - 1));
                } else {
                    assert(written_before.contains_key(k) == written.contains_key(k));
                    if written_before.contains_key(k) {
                        let j = choose|j: int| 0 <= j < n - 1 && live_at(es, k, j);
                        assert(0 <= j < n && live_at(es, k, j));
                    }
                }
            }
        } else {
            assert(data == before);
            assert forall|k: Seq<char>|
                #![trigger written.contains_key(k)]
                {
                    &&& written.contains_key(k) <==> index.contains_key(k) && exists|i: int|
                        0 <= i < n && live_at(es, k, i)
                    &&& written.contains_key(k) ==> written[k] == contents_of(es)[k]
                } by {
                if written_before.contains_key(k) {
                    let j = choose|j: int| 0 <= j < n - 1 && live_at(es, k, j);
                    assert(0 <= j < n && live_at(es, k, j));
                }
            }
        }
    }
}

/// Among the first `n` entries of the log, the last entry of the log
/// takes the life of at most one: the entry that the index had for its key.
proof fn lemma_live_records_superseded(log: Seq<SegmentView>, n: int)
    requires
        well_formed(log),
        0 <= n < entries(log).len(),
    ensures
        ({
            let all = entries(log);
            let index = index_of(all.drop_last());
            let key = all.last().command.key();
            live_records(all.take(n), index_of(all)).len() == live_records(
                all.take(n),
                index,
            ).len() - (if index.contains_key(key) && exists|i: int|
                0 <= i < n && (#[trigger] all[i]).pointer == index[key] {
                index[key].length as int
            } else {
                0
            })
        }),
    decreases n,
{
    let all = entries(log);
    let before = all.drop_last();
    let last = all.last();
    let index = index_of(before);
    let after = index_of(all);
    let key = last.command.key();
    if n == 0 {
        assert(all.take(0) =~= Seq::empty());
    } else {
        let x = all[n - 1];
        lemma_live_records_superseded(log, n - 1);
        lemma_entries(log);
        lemma_entry_records(log, n - 1);
        lemma_index_tracks_contents(before);
        assert(all.take(n).drop_last() =~= all.take(n - 1));
        assert(all.take(n).last() == x);
        assert(precedes(x.pointer, last.pointer));
        if index.contains_key(key) {
            let w = choose|w: int| live_at(before, key, w);
            assert(before[w] == all[w]);
            if w < n - 1 {
                assert(precedes(all[w].pointer, all[n - 1].pointer));
            }
            if w > n - 1 {
                assert(precedes(all[n - 1].pointer, all[w].pointer));
            }
            assert forall|i: int| 0 <= i < n - 1 && (#[trigger] all[i]).pointer
                == index[key] implies i == w by {
                if i < w {
                    assert(precedes(all[i].pointer, all[w].pointer));
                }
                if i > w {
                    assert(precedes(all[w].pointer, all[i].pointer));
                }
            }
            if x.pointer == index[key] {
                assert(w == n - 1);
                assert(live(index, x));
                assert(!live(after, x));
            } else {
                assert(!(live(index, x) && x.command.key() == key));
                if x.command.key() == key {
                    assert(!live(after, x));
                } else {
                    assert(live(after, x) == live(index, x));
                }
            }
        } else {
            if x.command.key() == key {
                assert(!live(after, x));
                assert(!live(index, x));
            } else {
                assert(live(after, x) == live(index, x));
            }
        }
    }
}

/// One more record makes its own bytes live, when it is a `Put`, and makes
/// dead the bytes of the record that the index had for its key.
pub proof fn lemma_live_bytes_push(log: Seq<SegmentView>)
    requires
        well_formed(log),
        entries(log).len() > 0,
    ensures
        ({
            let all = entries(log);
            let index = index_of(all.drop_last());
            let last = all.last();
            live_records(all, index_of(all)).len() == live_records(all.drop_last(), index).len()
                - (if index.contains_key(last.command.key()) {
                index[last.command.key()].length as int
            } else {
                0
            }) + (if last.command is Put {
                last.pointer.length as int
            } else {
                0
            })
        }),
{
    let all = entries(log);
    let before = all.drop_last();
    let last = all.last();
    let index = index_of(before);
    let key = last.command.key();
    lemma_live_records_superseded(log, all.len() - 1);
    lemma_entry_records(log, all.len() - 1);
    lemma_index_tracks_contents(before);
    assert(all.take(all.len() - 1) =~= before);
    if index.contains_key(key) {
        let w = choose|w: int| live_at(before, key, w);
        assert(before[w] == all[w]);
        assert(0 <= w < all.len() - 1 && all[w].pointer == index[key]);
    }
}

/// Every record that compaction has written is live in what it has
/// written.
pub proof fn lemma_live_records_all_live(log: Seq<SegmentView>, id: u64, n: int)
    requires
        well_formed(log),
        0 <= n <= entries(log).len(),
        live_records(entries(log).take(n), index_of(entries(log))).len() <= u64::MAX,
    ensures
        ({
            let written = scan(id, live_records(entries(log).take(n), index_of(entries(log))), 0);
            live_records(written, index_of(written)).len() == live_records(
                entries(log).take(n),
                index_of(entries(log)),
            ).len()
        }),
    decreases n,
{
    let es = entries(log);
    let index = index_of(es);
    let data = live_records(es.take(n), index);
    if n == 0 {
        assert(data =~= Seq::empty());
        assert(scan(id, data, 0) =~= Seq::empty());
    } else {
        let before = live_records(es.take(n - 1), index);
        let entry = es[n - 1];
        assert(es.take(n).drop_last() =~= es.take(n - 1));
        lemma_live_records_all_live(log, id, n - 1);
        if live(index, entry) {
            let key = entry.command.key();
            let written_before = contents_of(scan(id, before, 0));
            lemma_live_records_replay(log, id, n - 1);
            lemma_entries(log);
            lemma_entry_records(log, n - 1);
            assert(!written_before.contains_key(key)) by {
                if written_before.contains_key(key) {
                    let j = choose|j: int| 0 <= j < n - 1 && live_at(es, key, j);
                    assert(precedes(es[j].pointer, es[n - 1].pointer));
                }
            }
            lemma_scan_appended(id, before, entry.command);
            let segment = seq![SegmentView { id, data }];
            assert(segment.drop_last() =~= Seq::empty());
            assert(entries(segment.drop_last()) =~= Seq::empty());
            assert(entries(segment) =~= scan(id, data, 0));
            assert(entries(segment).drop_last() =~= scan(id, before, 0));
            lemma_index_tracks_contents(scan(id, before, 0));
            lemma_live_bytes_push(segment);
        }
    }
}

/// Compaction keeps the contents: every key has the value after it that it
/// had before, and no key gains one. The live records must fit one segment.
pub proof fn lemma_compaction_keeps_contents(log: Seq<SegmentView>)
    requires
        log.len() > 0,
        well_formed(log),
        live_records(entries(log), index_of(entries(log))).len() <= u64::MAX,
    ensures
        well_formed(compacted(log)),
        contents_of(entries(compacted(log))) == contents_of(entries(log)),
        log.last().id < u64::MAX ==> dead_bytes(compacted(log)) == 0,
{
    if log.last().id < u64::MAX {
        let es = entries(log);
        let id = (log.last().id + 1) as u64;
        let after = compacted(log);
        let data = live_records(es, index_of(es));
        assert(es.take(es.len() as int) =~= es);
        lemma_live_records_replay(log, id, es.len() as int);
        lemma_live_records_all_live(log, id, es.len() as int);
        lemma_live_records_bytes(log, index_of(es), es.len() as int);
        lemma_log_bytes(log);
        lemma_index_tracks_contents(es);
        assert(es.take(es.len() as int) =~= es);
        assert(after.drop_last() =~= Seq::empty());
        assert(entries(after.drop_last()) =~= Seq::empty());
        assert(entries(after) =~= scan(id, data, 0));
        assert(contents_of(entries(after)) =~= contents_of(es));
        assert(total_bytes(after.drop_last()) == 0);
    }
}

/// No more bytes are live than the log has.
pub proof fn lemma_live_bytes_bound(log: Seq<SegmentView>)
    requires
        well_formed(log),
    ensures
        live_bytes(log) <= total_bytes(log),
{
    let es = entries(log);
    lemma_live_records_bytes(log, index_of(es), es.len() as int);
    assert(es.take(es.len() as int) =~= es);
    lemma_log_bytes(log);
}

/// Everything that is so of a compacted log.
pub proof fn lemma_compacted(log: Seq<SegmentView>)
    requires
        log.len() > 0,
        well_formed(log),
        log.last().id < u64::MAX,
        live_records(entries(log), index_of(entries(log))).len() <= u64::MAX,
    ensures
        well_formed(compacted(log)),
        contents_of(entries(compacted(log))) == contents_of(entries(log)),
        entries(compacted(log)) == scan(
            (log.last().id + 1) as u64,
            live_records(entries(log), index_of(entries(log))),
            0,
        ),
        total_bytes(compacted(log)) == live_records(entries(log), index_of(entries(log))).len(),
        live_bytes(compacted(log)) == total_bytes(compacted(log)),
        total_bytes(compacted(log)) <= total_bytes(log),
{
    lemma_compaction_keeps_contents(log);
    lemma_compaction_shrinks(log);
    let after = compacted(log);
    assert(after.drop_last() =~= Seq::empty());
    assert(entries(after.drop_last()) =~= Seq::empty());
    assert(total_bytes(after.drop_last()) == 0);
    assert(entries(after) =~= scan(after[0].id, after[0].data, 0));
}

/// Everything that compaction writes is a `Put`.
pub proof fn lemma_live_records_are_puts(log: Seq<SegmentView>, id: u64, n: int)
    requires
        well_formed(log),
        0 <= n <= entries(log).len(),
    ensures
        ({
            let written = scan(id, live_records(entries(log).take(n), index_of(entries(log))), 0);
            forall|i: int| 0 <= i < written.len() ==> (#[trigger] written[i]).command is Put
        }),
    decreases n,
{
    let es = entries(log);
    let index = index_of(es);
    let data = live_records(es.take(n), index);
    if n == 0 {
        assert(data =~= Seq::empty());
        assert(scan(id, data, 0) =~= Seq::empty());
    } else {
        let before = live_records(es.take(n - 1), index);
        assert(es.take(n).drop_last() =~= es.take(n - 1));
        lemma_live_records_are_puts(log, id, n - 1);
        if live(index, es[n - 1]) {
            lemma_live_records_replay(log, id, n - 1);
            lemma_entry_records(log, n - 1);
            lemma_scan_appended(id, before, es[n - 1].command);
            let earlier = scan(id, before, 0);
            let written = scan(id, data, 0);
            assert forall|i: int| 0 <= i < written.len() implies (#[trigger] written[i]).command
                is Put by {
                if i < earlier.len() {
                    assert(written[i] == earlier[i]);
                }
            }
        }
    }
}

/// The log in the middle of a compaction, when the live records among its
/// first `n` entries are written to the new segment and no segment is
/// dropped yet.
pub open spec fn compacting(log: Seq<SegmentView>, n: int) -> Seq<SegmentView> {
    log.push(
        SegmentView {
            id: (log.last().id + 1) as u64,
            data: live_records(entries(log).take(n), index_of(entries(log))),
        },
    )
}

/// The live records among the first entries are a part of the live
/// records among all.
pub proof fn lemma_live_records_grow(
    entries: Seq<Entry>,
    index: Map<Seq<char>, LogPointer>,
    n: int,
)
    requires
        0 <= n <= entries.len(),
    ensures
        live_records(entries.take(n), index).len() <= live_records(entries, index).len(),
    decreases entries.len() - n,
{
    if n < entries.len() {
        lemma_live_records_grow(entries, index, n + 1);
        assert(entries.take(n + 1).drop_last() =~= entries.take(n));
    } else {
        assert(entries.take(n) =~= entries);
    }
}

} // verus!
