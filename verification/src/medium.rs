//! The medium: the files that hold the log between the runs of a program.
//!
//! The engine does not touch the medium. It plans: given which segment
//! files there are and how long each is, it lists the steps that make the
//! files hold the log of the store. The host program performs the steps,
//! one after another, and makes each durable before it goes on.
//!
//! A segment only ever grows at its end, loses a cut-off record there, or
//! is dropped as a whole, so three kinds of step are enough.
use crate::log::{ascending, in_log, log_of, well_formed, SegmentView};
use crate::store::KvStore;
use vstd::prelude::*;

verus! {

/// What the medium holds of one segment.
#[derive(Debug, Clone, Copy, PartialEq, Eq, Structural)]
pub struct Stored {
    /// The id of the segment.
    pub id: u64,
    /// The number of bytes in the segment's file.
    pub length: u64,
}

/// One step of bringing the medium up to date.
#[derive(Debug, Clone, Copy, PartialEq, Eq, Structural)]
pub enum Step {
    /// Cut the file of segment `id` down to its first `length` bytes.
    Truncate { id: u64, length: u64 },
    /// Write the bytes of the log's segment number `segment`, from offset
    /// `from` on, at the end of the file of segment `id`. The file is
    /// created when there is none.
    Append { id: u64, segment: usize, from: usize },
    /// Delete the file of segment `id`.
    Delete { id: u64 },
}

/// The bytes that the files hold for a segment: none when it has no file.
pub open spec fn held(files: Map<u64, Seq<u8>>, id: u64) -> Seq<u8> {
    if files.contains_key(id) {
        files[id]
    } else {
        Seq::empty()
    }
}

/// The files after one step.
pub open spec fn apply_step(files: Map<u64, Seq<u8>>, log: Seq<SegmentView>, step: Step) -> Map<
    u64,
    Seq<u8>,
> {
    match step {
        Step::Truncate { id, length } => files.insert(id, held(files, id).take(length as int)),
        Step::Append { id, segment, from } => files.insert(
            id,
            held(files, id) + log[segment as int].data.skip(from as int),
        ),
        Step::Delete { id } => files.remove(id),
    }
}

/// The files after the steps, taken in order.
pub open spec fn apply_steps(
    files: Map<u64, Seq<u8>>,
    log: Seq<SegmentView>,
    steps: Seq<Step>,
) -> Map<u64, Seq<u8>>
    decreases steps.len(),
{
    if steps.len() == 0 {
        files
    } else {
        apply_step(apply_steps(files, log, steps.drop_last()), log, steps.last())
    }
}

/// One of the first `n` segments of the log has the id.
pub open spec fn among(log: Seq<SegmentView>, n: int, id: u64) -> bool {
    exists|i: int| 0 <= i < n && (#[trigger] log[i]).id == id
}

/// The files that hold the log exactly: one file for each segment, with
/// the segment's bytes.
pub open spec fn image(log: Seq<SegmentView>) -> Map<u64, Seq<u8>> {
    Map::new(
        |id: u64| among(log, log.len() as int, id),
        |id: u64| log[choose|i: int| 0 <= i < log.len() && (#[trigger] log[i]).id == id].data,
    )
}

/// The two byte sequences are the same as far as both go.
pub open spec fn agree(file: Seq<u8>, data: Seq<u8>) -> bool {
    if file.len() <= data.len() {
        data.take(file.len() as int) == file
    } else {
        file.take(data.len() as int) == data
    }
}

/// `stored` lists the files, and each file of a segment of the log holds
/// an earlier or a later state of that segment.
pub open spec fn mirrors(files: Map<u64, Seq<u8>>, stored: Seq<Stored>, log: Seq<SegmentView>)
    -> bool {
    &&& forall|a: int, b: int|
        0 <= a < b < stored.len() ==> (#[trigger] stored[a]).id != (#[trigger] stored[b]).id
    &&& forall|a: int|
        0 <= a < stored.len() ==> files.contains_key((#[trigger] stored[a]).id)
            && files[stored[a].id].len() == stored[a].length
    &&& forall|id: u64| #[trigger]
        files.contains_key(id) ==> exists|a: int|
            0 <= a < stored.len() && (#[trigger] stored[a]).id == id
    &&& forall|i: int|
        0 <= i < log.len() && files.contains_key((#[trigger] log[i]).id) ==> agree(
            files[log[i].id],
            log[i].data,
        )
}

/// `length` is what `stored` lists for the segment: the length of its
/// file, or nothing when it has no file.
pub open spec fn listed(stored: Seq<Stored>, id: u64, length: Option<u64>) -> bool {
    match length {
        Some(length) => exists|a: int|
            0 <= a < stored.len() && (#[trigger] stored[a]).id == id && stored[a].length
                == length,
        None => forall|a: int| 0 <= a < stored.len() ==> (#[trigger] stored[a]).id != id,
    }
}

/// The id is that of a file which is to be deleted after the one with id
/// `bound`, if there is a bound: no segment of the log has it.
pub open spec fn waiting(log: Seq<SegmentView>, bound: Option<u64>, id: u64) -> bool {
    &&& !among(log, log.len() as int, id)
    &&& bound is Some ==> id > bound->0
}

/// The writes come before the deletions, and the deletions are in the
/// order of the ids.
pub open spec fn writes_first(steps: Seq<Step>) -> bool {
    forall|i: int, j: int|
        0 <= i < j < steps.len() && (#[trigger] steps[i]) is Delete ==> (#[trigger] steps[j])
            is Delete && steps[i]->Delete_id < steps[j]->Delete_id
}

/// Every step that appends names a segment of the log and an offset in it.
pub open spec fn in_range(log: Seq<SegmentView>, steps: Seq<Step>) -> bool {
    forall|k: int|
        0 <= k < steps.len() && (#[trigger] steps[k]) is Append ==> {
            &&& steps[k]->segment < log.len()
            &&& log[steps[k]->segment as int].id == steps[k]->Append_id
            &&& steps[k]->from <= log[steps[k]->segment as int].data.len()
        }
}

/// With the first `n` segments written, their files hold them, and every
/// other file is as it was.
pub open spec fn written(
    files: Map<u64, Seq<u8>>,
    log: Seq<SegmentView>,
    steps: Seq<Step>,
    n: int,
) -> bool {
    let now = apply_steps(files, log, steps);
    &&& forall|j: int|
        0 <= j < n ==> now.contains_key((#[trigger] log[j]).id) && now[log[j].id] == log[j].data
    &&& forall|id: u64|
        !among(log, n, id) ==> (#[trigger] now.contains_key(id)) == files.contains_key(id) && (
        now.contains_key(id) ==> now[id] == files[id])
}

/// With every segment written and the files up to `bound` deleted, the
/// files of the segments hold them, and of the other files those are left
/// that come after `bound`.
pub open spec fn dropped(
    files: Map<u64, Seq<u8>>,
    log: Seq<SegmentView>,
    steps: Seq<Step>,
    bound: Option<u64>,
) -> bool {
    let now = apply_steps(files, log, steps);
    &&& forall|j: int|
        0 <= j < log.len() ==> now.contains_key((#[trigger] log[j]).id) && now[log[j].id]
            == log[j].data
    &&& forall|id: u64|
        !among(log, log.len() as int, id) ==> (#[trigger] now.contains_key(id)) == (
        files.contains_key(id) && waiting(log, bound, id))
}

/// Writing segment `n`, with the step that its file calls for, leaves the
/// first `n + 1` segments written.
pub proof fn lemma_written_next(
    files: Map<u64, Seq<u8>>,
    stored: Seq<Stored>,
    log: Seq<SegmentView>,
    steps: Seq<Step>,
    n: int,
    length: Option<u64>,
)
    requires
        ascending(log),
        0 <= n < log.len(),
        n <= usize::MAX,
        log[n].data.len() <= usize::MAX,
        mirrors(files, stored, log),
        written(files, log, steps, n),
        listed(stored, log[n].id, length),
    ensures
        written(files, log, next_steps(log, steps, n, length), n + 1),
{
    let id = log[n].id;
    let data = log[n].data;
    let now = apply_steps(files, log, steps);
    let after = next_steps(log, steps, n, length);
    let then = apply_steps(files, log, after);
    assert(!among(log, n, id)) by {
        if among(log, n, id) {
            let j = choose|j: int| 0 <= j < n && (#[trigger] log[j]).id == id;
            assert(log[j].id < log[n].id);
        }
    }
    assert(now.contains_key(id) == files.contains_key(id));
    if after != steps {
        assert(after.drop_last() =~= steps);
    }
    match length {
        Some(length) => {
            let a = choose|a: int|
                0 <= a < stored.len() && (#[trigger] stored[a]).id == id && stored[a].length
                    == length;
            assert(files.contains_key(stored[a].id));
            assert(agree(files[log[n].id], data));
            if length < data.len() {
                assert(files[id] + data.skip(length as int) =~= data);
            } else if length == data.len() {
                assert(files[id].take(data.len() as int) =~= files[id]);
                assert(data.take(data.len() as int) =~= data);
            }
        },
        None => {
            assert(!files.contains_key(id));
            assert(Seq::<u8>::empty() + data.skip(0) =~= data);
        },
    }
    assert(then.contains_key(id) && then[id] == data);
    assert forall|j: int| 0 <= j < n + 1 implies then.contains_key((#[trigger] log[j]).id)
        && then[log[j].id] == log[j].data by {
        if j < n {
            assert(log[j].id < log[n].id);
        }
    }
    assert forall|other: u64| !among(log, n + 1, other) implies (#[trigger] then.contains_key(
        other,
    )) == files.contains_key(other) && (then.contains_key(other) ==> then[other]
        == files[other]) by {
        assert(other != id) by {
            if other == id {
                assert(log[n].id == other);
            }
        }
        assert(!among(log, n, other)) by {
            if among(log, n, other) {
                let j = choose|j: int| 0 <= j < n && (#[trigger] log[j]).id == other;
                assert(0 <= j < n + 1 && log[j].id == other);
            }
        }
        assert(now.contains_key(other) == files.contains_key(other));
    }
}

/// The steps so far, and behind them the step that the file of segment `n`
/// calls for: to cut the file when it is longer than the segment, to append
/// what it lacks when it is shorter, to write it all when there is no file.
pub open spec fn next_steps(
    log: Seq<SegmentView>,
    steps: Seq<Step>,
    n: int,
    length: Option<u64>,
) -> Seq<Step> {
    let id = log[n].id;
    let data = log[n].data;
    match length {
        Some(length) => if length > data.len() {
            steps.push(Step::Truncate { id, length: data.len() as u64 })
        } else if length < data.len() {
            steps.push(Step::Append { id, segment: n as usize, from: length as usize })
        } else {
            steps
        },
        None => steps.push(Step::Append { id, segment: n as usize, from: 0 }),
    }
}

/// Deleting the first file that waits leaves the files up to it dropped.
pub proof fn lemma_dropped_next(
    files: Map<u64, Seq<u8>>,
    stored: Seq<Stored>,
    log: Seq<SegmentView>,
    steps: Seq<Step>,
    bound: Option<u64>,
    id: u64,
)
    requires
        mirrors(files, stored, log),
        dropped(files, log, steps, bound),
        waiting(log, bound, id),
        forall|a: int|
            0 <= a < stored.len() && waiting(log, bound, (#[trigger] stored[a]).id)
                ==> stored[a].id >= id,
    ensures
        dropped(files, log, steps.push((Step::Delete { id })), Some(id)),
{
    let now = apply_steps(files, log, steps);
    let after = steps.push(Step::Delete { id });
    let then = apply_steps(files, log, after);
    assert(after.drop_last() =~= steps);
    assert forall|j: int| 0 <= j < log.len() implies then.contains_key((#[trigger] log[j]).id)
        && then[log[j].id] == log[j].data by {
        assert(log[j].id != id) by {
            if log[j].id == id {
                assert(among(log, log.len() as int, id));
            }
        }
    }
    assert forall|other: u64| !among(log, log.len() as int, other) implies (
    #[trigger] then.contains_key(other)) == (files.contains_key(other) && waiting(
        log,
        Some(id),
        other,
    )) by {
        assert(now.contains_key(other) == (files.contains_key(other) && waiting(
            log,
            bound,
            other,
        )));
        if files.contains_key(other) && waiting(log, bound, other) {
            let a = choose|a: int| 0 <= a < stored.len() && (#[trigger] stored[a]).id == other;
            assert(stored[a].id >= id);
        }
    }
}

/// When no file waits any more, the files hold the log exactly.
pub proof fn lemma_dropped_all(
    files: Map<u64, Seq<u8>>,
    stored: Seq<Stored>,
    log: Seq<SegmentView>,
    steps: Seq<Step>,
    bound: Option<u64>,
)
    requires
        ascending(log),
        mirrors(files, stored, log),
        dropped(files, log, steps, bound),
        forall|a: int| 0 <= a < stored.len() ==> !waiting(log, bound, (#[trigger] stored[a]).id),
    ensures
        apply_steps(files, log, steps) == image(log),
{
    let now = apply_steps(files, log, steps);
    assert forall|id: u64| now.contains_key(id) == image(log).contains_key(id) && (
    now.contains_key(id) ==> now[id] == image(log)[id]) by {
        if among(log, log.len() as int, id) {
            let i = choose|i: int| 0 <= i < log.len() && (#[trigger] log[i]).id == id;
            let j = choose|j: int| 0 <= j < log.len() && (#[trigger] log[j]).id == id;
            if i < j {
                assert(log[i].id < log[j].id);
            }
            if j < i {
                assert(log[j].id < log[i].id);
            }
            assert(now.contains_key(log[j].id));
        } else {
            assert(now.contains_key(id) == (files.contains_key(id) && waiting(log, bound, id)));
            if files.contains_key(id) && waiting(log, bound, id) {
                let a = choose|a: int| 0 <= a < stored.len() && (#[trigger] stored[a]).id == id;
                assert(!waiting(log, bound, stored[a].id));
            }
        }
    }
    assert(now =~= image(log));
}

/// The number of files listed that wait to be deleted.
pub open spec fn count_waiting(stored: Seq<Stored>, log: Seq<SegmentView>, bound: Option<u64>)
    -> nat
    decreases stored.len(),
{
    if stored.len() == 0 {
        0
    } else if waiting(log, bound, stored.last().id) {
        count_waiting(stored.drop_last(), log, bound) + 1
    } else {
        count_waiting(stored.drop_last(), log, bound)
    }
}

/// With a file deleted, fewer wait.
pub proof fn lemma_fewer_waiting(
    stored: Seq<Stored>,
    log: Seq<SegmentView>,
    bound: Option<u64>,
    id: u64,
)
    requires
        waiting(log, bound, id),
    ensures
        count_waiting(stored, log, Some(id)) <= count_waiting(stored, log, bound),
        (exists|a: int| 0 <= a < stored.len() && (#[trigger] stored[a]).id == id) ==> count_waiting(
            stored,
            log,
            Some(id),
        ) < count_waiting(stored, log, bound),
    decreases stored.len(),
{
    if stored.len() > 0 {
        let fewer = stored.drop_last();
        lemma_fewer_waiting(fewer, log, bound, id);
        if exists|a: int| 0 <= a < stored.len() && (#[trigger] stored[a]).id == id {
            let a = choose|a: int| 0 <= a < stored.len() && (#[trigger] stored[a]).id == id;
            if a < stored.len() - 1 {
                assert(fewer[a].id == id);
            }
        }
    }
}

/// The length that `stored` lists for the file of the segment, if it
/// lists one.
fn stored_length(stored: &Vec<Stored>, id: u64) -> (length: Option<u64>)
    ensures
        listed(stored@, id, length),
{
    let mut a: usize = 0;
    while a < stored.len()
        invariant
            a <= stored@.len(),
            forall|b: int| 0 <= b < a ==> (#[trigger] stored@[b]).id != id,
        decreases stored@.len() - a,
    {
        if stored[a].id == id {
            return Some(stored[a].length);
        }
        a += 1;
    }
    None
}

impl KvStore {
    /// The least id among the files listed that wait to be deleted.
    fn next_waiting(&self, stored: &Vec<Stored>, bound: Option<u64>) -> (next: Option<u64>)
        ensures
            (match next {
                Some(id) => {
                    &&& waiting(self.log(), bound, id)
                    &&& exists|a: int| 0 <= a < stored@.len() && (#[trigger] stored@[a]).id == id
                    &&& forall|a: int|
                        0 <= a < stored@.len() && waiting(
                            self.log(),
                            bound,
                            (#[trigger] stored@[a]).id,
                        ) ==> stored@[a].id >= id
                },
                None => forall|a: int|
                    0 <= a < stored@.len() ==> !waiting(
                        self.log(),
                        bound,
                        (#[trigger] stored@[a]).id,
                    ),
            }),
    {
        let mut next: Option<u64> = None;
        let mut a: usize = 0;
        while a < stored.len()
            invariant
                a <= stored@.len(),
                (match next {
                    Some(id) => {
                        &&& waiting(self.log(), bound, id)
                        &&& exists|b: int| 0 <= b < a && (#[trigger] stored@[b]).id == id
                        &&& forall|b: int|
                            0 <= b < a && waiting(self.log(), bound, (#[trigger] stored@[b]).id)
                                ==> stored@[b].id >= id
                    },
                    None => forall|b: int|
                        0 <= b < a ==> !waiting(self.log(), bound, (#[trigger] stored@[b]).id),
                }),
            decreases stored@.len() - a,
        {
            let id = stored[a].id;
            let after_bound = match bound {
                Some(bound) => id > bound,
                None => true,
            };
            let in_log = self.find_segment(id).is_some();
            proof {
                if in_log {
                    assert(among(self.log(), self.log().len() as int, id));
                }
            }
            if after_bound && !in_log {
                let better = match next {
                    Some(least) => id < least,
                    None => true,
                };
                if better {
                    next = Some(id);
                }
            }
            a += 1;
        }
        next
    }

    /// Plans how to make the medium hold the log of the store.
    ///
    /// `stored` lists the segment files that there are. The steps first
    /// bring the file of every segment of the log up to date, in the order
    /// of the log, and then delete the files of segments that the log no
    /// longer has, oldest first. Performed in order on files of which
    /// `stored` is true, they leave one file for each segment, with the
    /// segment's bytes.
    pub fn sync_steps(&self, stored: &Vec<Stored>) -> (steps: Vec<Step>)
        requires
            self.wf(),
        ensures
            in_range(self.log(), steps@),
            writes_first(steps@),
            forall|files: Map<u64, Seq<u8>>| #[trigger]
                mirrors(files, stored@, self.log()) ==> apply_steps(files, self.log(), steps@)
                    == image(self.log()),
    {
        let ghost log = self.log();
        let segments = self.segments();
        let mut steps: Vec<Step> = Vec::new();
        let mut n: usize = 0;
        while n < segments.len()
            invariant
                n <= segments@.len(),
                log_of(segments@) == log,
                well_formed(log),
                in_range(log, steps@),
                forall|k: int| 0 <= k < steps@.len() ==> !((#[trigger] steps@[k]) is Delete),
                forall|files: Map<u64, Seq<u8>>| #[trigger]
                    mirrors(files, stored@, log) ==> written(files, log, steps@, n as int),
            decreases segments@.len() - n,
        {
            let id = segments[n].id;
            let size = segments[n].data.len();
            let length = stored_length(stored, id);
            let ghost before = steps@;
            assert(log[n as int].id == id && log[n as int].data.len() == size);
            match length {
                Some(length) => {
                    if length > size as u64 {
                        steps.push(Step::Truncate { id, length: size as u64 });
                    } else if length < size as u64 {
                        steps.push(Step::Append { id, segment: n, from: length as usize });
                    }
                },
                None => {
                    steps.push(Step::Append { id, segment: n, from: 0 });
                },
            }
            proof {
                assert(steps@ == next_steps(log, before, n as int, length));
                assert forall|files: Map<u64, Seq<u8>>| #[trigger]
                    mirrors(files, stored@, log) implies written(files, log, steps@, n + 1) by {
                    lemma_written_next(files, stored@, log, before, n as int, length);
                }
                assert forall|k: int| 0 <= k < steps@.len() && (#[trigger] steps@[k])
                    is Append implies ({
                    &&& steps@[k]->segment < log.len()
                    &&& log[steps@[k]->segment as int].id == steps@[k]->Append_id
                    &&& steps@[k]->from <= log[steps@[k]->segment as int].data.len()
                }) by {
                    if k < before.len() {
                        assert(steps@[k] == before[k]);
                    }
                }
                assert forall|k: int| 0 <= k < steps@.len() implies !((#[trigger] steps@[k])
                    is Delete) by {
                    if k < before.len() {
                        assert(steps@[k] == before[k]);
                    }
                }
            }
            n += 1;
        }
        let mut bound: Option<u64> = None;
        let mut more = true;
        while more
            invariant
                self.log() == log,
                well_formed(log),
                in_range(log, steps@),
                writes_first(steps@),
                forall|k: int|
                    0 <= k < steps@.len() && (#[trigger] steps@[k]) is Delete ==> bound is Some
                        && steps@[k]->Delete_id <= bound->0,
                forall|files: Map<u64, Seq<u8>>| #[trigger]
                    mirrors(files, stored@, log) ==> dropped(files, log, steps@, bound),
                !more ==> forall|a: int|
                    0 <= a < stored@.len() ==> !waiting(log, bound, (#[trigger] stored@[a]).id),
            decreases count_waiting(stored@, log, bound), if more { 1int } else { 0int },
        {
            match self.next_waiting(stored, bound) {
                Some(id) => {
                    let ghost before = steps@;
                    proof {
                        lemma_fewer_waiting(stored@, log, bound, id);
                        assert forall|files: Map<u64, Seq<u8>>| #[trigger]
                            mirrors(files, stored@, log) implies dropped(
                            files,
                            log,
                            before.push(Step::Delete { id }),
                            Some(id),
                        ) by {
                            lemma_dropped_next(files, stored@, log, before, bound, id);
                        }
                    }
                    steps.push(Step::Delete { id });
                    bound = Some(id);
                    proof {
                        assert forall|k: int| 0 <= k < steps@.len() && (#[trigger] steps@[k])
                            is Append implies ({
                            &&& steps@[k]->segment < log.len()
                            &&& log[steps@[k]->segment as int].id == steps@[k]->Append_id
                            &&& steps@[k]->from <= log[steps@[k]->segment as int].data.len()
                        }) by {
                            if k < before.len() {
                                assert(steps@[k] == before[k]);
                            }
                        }
                        assert forall|i: int, j: int|
                            0 <= i < j < steps@.len() && (#[trigger] steps@[i])
                                is Delete implies (#[trigger] steps@[j]) is Delete
                            && steps@[i]->Delete_id < steps@[j]->Delete_id by {
                            assert(steps@[i] == before[i]);
                            if j < before.len() {
                                assert(steps@[j] == before[j]);
                            }
                        }
                        assert forall|k: int| 0 <= k < steps@.len() && (#[trigger] steps@[k])
                            is Delete implies bound is Some && steps@[k]->Delete_id
                            <= bound->0 by {
                            if k < before.len() {
                                assert(steps@[k] == before[k]);
                            }
                        }
                    }
                },
                None => {
                    more = false;
                },
            }
        }
        proof {
            assert forall|files: Map<u64, Seq<u8>>| #[trigger]
                mirrors(files, stored@, log) implies apply_steps(files, log, steps@) == image(
                log,
            ) by {
                lemma_dropped_all(files, stored@, log, steps@, bound);
            }
        }
        steps
    }
}

} // verus!
