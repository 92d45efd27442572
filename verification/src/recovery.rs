//! Recovery: what a store makes of the segments it is opened on.
//!
//! The segments found are put in the order of their ids. Each is read front
//! to back, and a record that was cut off at the end of a segment, as a
//! crash in the middle of a write leaves it, is dropped. Bytes that cannot
//! start any record make the whole log corrupt, and so do two segments with
//! one id.
use crate::command::{encode_command, parse_record};
use crate::log::{
    ascending, clean, corrupt, empty_segment, entries, entry_at, extended, lemma_extended,
    lemma_opened_segment, lemma_scan_cut, lemma_scan_step, log_of, scan, scan_end,
    total_bytes, well_formed, whole_records, Segment, SegmentView,
};
use vstd::prelude::*;

verus! {

/// Two segments of the log have the same id.
pub open spec fn repeated_id(log: Seq<SegmentView>) -> bool {
    exists|i: int, j: int|
        0 <= i < j < log.len() && (#[trigger] log[i]).id == (#[trigger] log[j]).id
}

/// Some segment of the log holds bytes that can start no record.
pub open spec fn any_corrupt(log: Seq<SegmentView>) -> bool {
    exists|i: int| 0 <= i < log.len() && corrupt((#[trigger] log[i]).data)
}

/// The segment without the cut-off record at its end, if it has one.
pub open spec fn recovered(segment: SegmentView) -> SegmentView {
    SegmentView { id: segment.id, data: whole_records(segment.data) }
}

/// The segment is one of the log's.
pub open spec fn occurs(log: Seq<SegmentView>, segment: SegmentView) -> bool {
    exists|j: int| 0 <= j < log.len() && #[trigger] log[j] == segment
}

/// Segment `j` of `log` is what is recovered of one of the segments found.
pub open spec fn recovered_from(log: Seq<SegmentView>, j: int, found: Seq<SegmentView>) -> bool {
    exists|i: int| 0 <= i < found.len() && log[j] == recovered(#[trigger] found[i])
}

/// `log` is the log that recovery makes of the segments `found`: what is
/// recovered of each of them, and nothing else, in the order of their ids.
/// Of no segments it makes a log of one empty segment.
pub open spec fn recovers(log: Seq<SegmentView>, found: Seq<SegmentView>) -> bool {
    if found.len() == 0 {
        log == seq![empty_segment(0)]
    } else {
        &&& ascending(log)
        &&& log.len() == found.len()
        &&& forall|i: int| 0 <= i < found.len() ==> occurs(log, recovered(#[trigger] found[i]))
        &&& forall|j: int| 0 <= j < log.len() ==> #[trigger] recovered_from(log, j, found)
    }
}

/// What is recovered of a segment is clean, and is the segment itself when
/// that was clean.
pub proof fn lemma_recovered(data: Seq<u8>)
    ensures
        clean(whole_records(data)),
        whole_records(data).len() <= data.len(),
        clean(data) ==> whole_records(data) == data,
        forall|id: u64| scan(id, whole_records(data), 0) == scan(id, data, 0),
{
    lemma_scan_cut(0, data, 0);
    assert forall|id: u64| scan(id, whole_records(data), 0) == scan(id, data, 0) by {
        lemma_scan_cut(id, data, 0);
    }
    if clean(data) {
        assert(data.take(data.len() as int) =~= data);
    }
}

/// The log that recovery has made when it has read the first `pos` bytes
/// of a segment: the segments before it, and the segment as far as read.
pub open spec fn partly_recovered(base: Seq<SegmentView>, id: u64, data: Seq<u8>, pos: int) -> Seq<
    SegmentView,
> {
    base.push(SegmentView { id, data: data.take(pos) })
}

/// Recovery starts on a segment with nothing read.
pub proof fn lemma_recovery_start(base: Seq<SegmentView>, id: u64, data: Seq<u8>)
    requires
        well_formed(base),
        base.len() > 0 ==> base.last().id < id,
    ensures
        well_formed(partly_recovered(base, id, data, 0)),
        entries(partly_recovered(base, id, data, 0)) == entries(base),
        total_bytes(partly_recovered(base, id, data, 0)) == total_bytes(base),
{
    lemma_opened_segment(base, id);
    assert(data.take(0) =~= Seq::empty());
}

/// One step of recovery: reading the record at `pos` adds its entry.
pub proof fn lemma_recovery_step(base: Seq<SegmentView>, id: u64, data: Seq<u8>, pos: int)
    requires
        0 <= pos < data.len() <= u64::MAX,
        well_formed(partly_recovered(base, id, data, pos)),
        parse_record(data.skip(pos)) is Record,
    ensures
        ({
            let command = parse_record(data.skip(pos))->command;
            let length = parse_record(data.skip(pos))->length;
            let next = partly_recovered(base, id, data, pos + length);
            &&& 9 <= length
            &&& pos + length <= data.len()
            &&& well_formed(next)
            &&& entries(next) == entries(partly_recovered(base, id, data, pos)).push(
                entry_at(id, pos, command, length),
            )
            &&& total_bytes(next) == total_bytes(partly_recovered(base, id, data, pos)) + length
            &&& scan_end(data, pos) == scan_end(data, pos + length)
        }),
{
    let command = parse_record(data.skip(pos))->command;
    let length = parse_record(data.skip(pos))->length;
    let partial = partly_recovered(base, id, data, pos);
    let next = partly_recovered(base, id, data, pos + length);
    lemma_scan_step(id, data, pos);
    assert(data.take(pos + length) =~= data.take(pos) + encode_command(command));
    lemma_extended(partial, command);
    assert(extended(partial, command) =~= next);
}

/// Where recovery stops reading a segment, it has recovered the segment.
pub proof fn lemma_recovery_stop(base: Seq<SegmentView>, id: u64, data: Seq<u8>, pos: int)
    requires
        0 <= pos <= data.len(),
        scan_end(data, pos) == scan_end(data, 0),
        pos < data.len() ==> !(parse_record(data.skip(pos)) is Record),
    ensures
        partly_recovered(base, id, data, pos) == base.push(recovered((SegmentView { id, data }))),
        corrupt(data) <==> parse_record(data.skip(pos)) is Corrupt,
{
    if pos == data.len() {
        assert(data.skip(pos) =~= Seq::empty());
    }
}

/// The segments' ids fall strictly from each segment to the next.
pub open spec fn descending(log: Seq<SegmentView>) -> bool {
    forall|i: int, j: int| 0 <= i < j < log.len() ==> (#[trigger] log[i]).id > (#[trigger] log[j]).id
}

/// The two sequences are equally long, and every segment of the one is a
/// segment of the other.
pub open spec fn same_segments(first: Seq<SegmentView>, second: Seq<SegmentView>) -> bool {
    &&& first.len() == second.len()
    &&& forall|i: int| 0 <= i < second.len() ==> occurs(first, #[trigger] second[i])
    &&& forall|j: int| 0 <= j < first.len() ==> occurs(second, #[trigger] first[j])
}

/// Puts segments in the order of falling ids, or finds that two of them
/// have the same id.
pub fn sort_descending(segments: Vec<Segment>) -> (result: Option<Vec<Segment>>)
    ensures
        (match result {
            Some(sorted) => {
                &&& !repeated_id(log_of(segments@))
                &&& descending(log_of(sorted@))
                &&& same_segments(log_of(sorted@), log_of(segments@))
            },
            None => repeated_id(log_of(segments@)),
        }),
{
    let ghost found = log_of(segments@);
    let mut rest = segments;
    let mut sorted: Vec<Segment> = Vec::new();
    assert(rest@.len() == rest.len());
    while rest.len() > 0
        invariant
            found == log_of(segments@),
            log_of(rest@) == found.take(rest@.len() as int),
            rest@.len() <= found.len(),
            sorted@.len() == found.len() - rest@.len(),
            descending(log_of(sorted@)),
            forall|i: int|
                rest@.len() <= i < found.len() ==> occurs(log_of(sorted@), #[trigger] found[i]),
            forall|j: int|
                0 <= j < sorted@.len() ==> exists|i: int|
                    rest@.len() <= i < found.len() && (#[trigger] log_of(sorted@)[j]) == found[i],
            forall|a: int, b: int|
                rest@.len() <= a < b < found.len() ==> (#[trigger] found[a]).id != (
                #[trigger] found[b]).id,
        decreases rest@.len(),
    {
        let ghost r = rest@.len() - 1;
        let ghost before = log_of(sorted@);
        let ghost unsorted = log_of(rest@);
        let segment = rest.pop().unwrap();
        assert(segment@ == found[r]) by {
            assert(unsorted[r] == found.take(r + 1)[r]);
        }
        assert(log_of(rest@) =~= found.take(r));
        let mut place: usize = 0;
        while place < sorted.len() && sorted[place].id > segment.id
            invariant
                place <= sorted@.len(),
                log_of(sorted@) == before,
                forall|j: int| 0 <= j < place ==> (#[trigger] before[j]).id > segment.id,
            decreases sorted@.len() - place,
        {
            place += 1;
        }
        if place < sorted.len() && sorted[place].id == segment.id {
            proof {
                assert(before[place as int].id == segment.id);
                let i = choose|i: int| r < i < found.len() && before[place as int] == found[i];
                assert(found[r].id == found[i].id);
                assert(repeated_id(found));
            }
            return None;
        }
        sorted.insert(place, segment);
        proof {
            let after = log_of(sorted@);
            assert(after =~= before.insert(place as int, found[r]));
            assert forall|j: int| place < j < after.len() implies (#[trigger] after[j]).id
                < found[r].id by {
                assert(after[j] == before[j - 1]);
                if j - 1 > place {
                    assert(before[place as int].id > before[j - 1].id);
                }
            }
            assert forall|i: int, j: int| 0 <= i < j < after.len() implies (#[trigger] after[i]).id
                > (#[trigger] after[j]).id by {
                if j < place {
                    assert(after[i] == before[i] && after[j] == before[j]);
                } else if i > place {
                    assert(after[i] == before[i - 1] && after[j] == before[j - 1]);
                } else if i < place && j > place {
                    assert(after[i] == before[i] && after[j] == before[j - 1]);
                }
            }
            assert forall|i: int| r <= i < found.len() implies occurs(after, #[trigger] found[i]) by {
                if i == r {
                    assert(after[place as int] == found[r]);
                } else {
                    let j = choose|j: int| 0 <= j < before.len() && #[trigger] before[j] == found[i];
                    if j < place {
                        assert(after[j] == found[i]);
                    } else {
                        assert(after[j + 1] == found[i]);
                    }
                }
            }
            assert forall|j: int| 0 <= j < after.len() implies exists|i: int|
                r <= i < found.len() && (#[trigger] after[j]) == found[i] by {
                if j == place {
                    assert(after[j] == found[r]);
                } else if j < place {
                    assert(after[j] == before[j]);
                    let i = choose|i: int| r < i < found.len() && before[j] == found[i];
                    assert(after[j] == found[i]);
                } else {
                    assert(after[j] == before[j - 1]);
                    let i = choose|i: int| r < i < found.len() && before[j - 1] == found[i];
                    assert(after[j] == found[i]);
                }
            }
            assert forall|a: int, b: int| r <= a < b < found.len() implies (#[trigger] found[a]).id
                != (#[trigger] found[b]).id by {
                if a == r {
                    let j = choose|j: int| 0 <= j < before.len() && #[trigger] before[j] == found[b];
                    if j < place {
                        assert(before[j].id > segment.id);
                    } else {
                        assert(after[j + 1].id < found[r].id);
                    }
                }
            }
        }
    }
    proof {
        let after = log_of(sorted@);
        assert forall|j: int| 0 <= j < after.len() implies occurs(found, #[trigger] after[j]) by {
            let i = choose|i: int| 0 <= i < found.len() && after[j] == found[i];
            assert(found[i] == after[j]);
        }
    }
    Some(sorted)
}

/// A corrupt segment among the ordered segments is one among those found.
pub proof fn lemma_any_corrupt(found: Seq<SegmentView>, ordered: Seq<SegmentView>, k: int)
    requires
        same_segments(ordered, found),
        0 <= k < ordered.len(),
        corrupt(ordered[k].data),
    ensures
        any_corrupt(found),
{
    assert(occurs(found, ordered[k]));
    let i = choose|i: int| 0 <= i < found.len() && #[trigger] found[i] == ordered[k];
    assert(corrupt(found[i].data));
}

/// When none of the ordered segments is corrupt, none of those found is.
pub proof fn lemma_none_corrupt(found: Seq<SegmentView>, ordered: Seq<SegmentView>)
    requires
        same_segments(ordered, found),
        forall|j: int| 0 <= j < ordered.len() ==> !corrupt((#[trigger] ordered[j]).data),
    ensures
        !any_corrupt(found),
{
    if any_corrupt(found) {
        let i = choose|i: int| 0 <= i < found.len() && corrupt((#[trigger] found[i]).data);
        assert(occurs(ordered, found[i]));
        let j = choose|j: int| 0 <= j < ordered.len() && #[trigger] ordered[j] == found[i];
        assert(!corrupt(ordered[j].data));
    }
}

/// What recovers the ordered segments recovers those found.
pub proof fn lemma_recovers(found: Seq<SegmentView>, ordered: Seq<SegmentView>, log: Seq<SegmentView>)
    requires
        same_segments(ordered, found),
        found.len() > 0,
        ascending(log),
        log.len() == ordered.len(),
        forall|j: int| 0 <= j < ordered.len() ==> occurs(log, recovered(#[trigger] ordered[j])),
        forall|t: int| 0 <= t < log.len() ==> #[trigger] recovered_from(log, t, ordered),
    ensures
        recovers(log, found),
{
    assert forall|i: int| 0 <= i < found.len() implies occurs(
        log,
        recovered(#[trigger] found[i]),
    ) by {
        assert(occurs(ordered, found[i]));
        let j = choose|j: int| 0 <= j < ordered.len() && #[trigger] ordered[j] == found[i];
        assert(occurs(log, recovered(ordered[j])));
    }
    assert forall|t: int| 0 <= t < log.len() implies #[trigger] recovered_from(log, t, found) by {
        assert(recovered_from(log, t, ordered));
        let j = choose|j: int| 0 <= j < ordered.len() && log[t] == recovered(#[trigger] ordered[j]);
        assert(occurs(found, ordered[j]));
        let i = choose|i: int| 0 <= i < found.len() && #[trigger] found[i] == ordered[j];
        assert(log[t] == recovered(found[i]));
    }
}

} // verus!
