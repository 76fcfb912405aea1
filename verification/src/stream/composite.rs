//! Patches for a composite cloud: one cloud of fixed capacity per scene, into
//! whose buffers the runs of leaves are written block by block.

use vstd::prelude::*;
use vstd::string::*;

use crate::gaussian::{Gaussian3d, PlanarGaussian3d, ScaleOpacity};
use crate::stream::allocator::count_below;
use crate::text::{decimal, ends_with, push_index, starts_with};

verus! {

/// A patch for the buffers of a composite cloud.
#[derive(Debug)]
pub enum CompositeWrite {
    /// write splats from index `offset` on
    Block { asset: u64, offset: usize, data: PlanarGaussian3d },
    /// hide `len` splats from index `offset` on: without extent and opacity they
    /// render nothing, whatever else their rows still hold
    Clear { asset: u64, offset: usize, len: usize },
}

impl CompositeWrite {
    /// The cloud that the patch is for.
    pub open spec fn spec_asset(self) -> u64 {
        match self {
            CompositeWrite::Block { asset, .. } => asset,
            CompositeWrite::Clear { asset, .. } => asset,
        }
    }

    /// First index after the patch.
    pub open spec fn end(self) -> int {
        match self {
            CompositeWrite::Block { offset, data, .. } => offset + data.spec_len(),
            CompositeWrite::Clear { offset, len, .. } => offset + len,
        }
    }

    /// The patch ends at an index, and its splats are complete.
    pub open spec fn wf(self) -> bool {
        &&& self.end() <= usize::MAX
        &&& self matches CompositeWrite::Block { data, .. } ==> data.wf()
    }

    /// The cloud that the patch is for.
    pub fn asset(&self) -> (r: u64)
        ensures
            r == self.spec_asset(),
    {
        match self {
            CompositeWrite::Block { asset, .. } => *asset,
            CompositeWrite::Clear { asset, .. } => *asset,
        }
    }
}

/// What is to be done about a patch.
#[derive(Debug)]
pub enum CompositeStep {
    /// write every attribute of the splats from index `offset` on
    Upload { asset: u64, offset: usize, data: PlanarGaussian3d },
    /// write extents and opacities from index `offset` on
    Hide { asset: u64, offset: usize, planes: Vec<ScaleOpacity> },
    /// drop the patch: it ends after the last splat of the cloud
    Refuse { clear: bool, offset: usize, end: usize, capacity: usize },
}

/// Whether `step` is what is to be done about `write` in a cloud of `capacity`
/// splats.
pub open spec fn is_step(write: CompositeWrite, capacity: usize, step: CompositeStep) -> bool {
    match write {
        CompositeWrite::Block { asset, offset, data } => if write.end() > capacity {
            step == (CompositeStep::Refuse {
                clear: false,
                offset,
                end: write.end() as usize,
                capacity,
            })
        } else {
            step == (CompositeStep::Upload { asset, offset, data })
        },
        CompositeWrite::Clear { asset, offset, len } => if write.end() > capacity {
            step == (CompositeStep::Refuse {
                clear: true,
                offset,
                end: write.end() as usize,
                capacity,
            })
        } else {
            step matches CompositeStep::Hide { asset: a, offset: o, planes } && a == asset && o
                == offset && planes@.len() == len && forall|k: int|
                0 <= k < len ==> (#[trigger] planes@[k]).is_hidden()
        },
    }
}

/// The wording of a refusal.
pub open spec fn refusal(clear: bool, offset: nat, end: nat, capacity: nat) -> Seq<char> {
    (if clear {
        "composite clear "@
    } else {
        "composite write "@
    }) + decimal(offset) + ".."@ + decimal(end) + " exceeds capacity "@ + decimal(capacity)
}

impl CompositeStep {
    /// The warning that goes with a refusal.
    pub open spec fn warns(self) -> Option<Seq<char>> {
        match self {
            CompositeStep::Refuse { clear, offset, end, capacity } => Some(
                refusal(clear, offset as nat, end as nat, capacity as nat),
            ),
            _ => None,
        }
    }

    /// The warning that goes with a refusal.
    pub fn warning(&self) -> (r: Option<String>)
        ensures
            r is Some <==> self.warns() is Some,
            r matches Some(text) ==> self.warns() == Some(text@),
    {
        match self {
            CompositeStep::Refuse { clear, offset, end, capacity } => {
                let mut out = String::new();
                if *clear {
                    out.append("composite clear ");
                } else {
                    out.append("composite write ");
                }
                push_index(&mut out, *offset);
                out.append("..");
                push_index(&mut out, *end);
                out.append(" exceeds capacity ");
                push_index(&mut out, *capacity);
                assert(out@ =~= refusal(*clear, *offset as nat, *end as nat, *capacity as nat));
                Some(out)
            },
            _ => None,
        }
    }
}

/// `len` values that render nothing.
fn hidden_planes(len: usize) -> (r: Vec<ScaleOpacity>)
    ensures
        r@.len() == len,
        forall|k: int| 0 <= k < len ==> (#[trigger] r@[k]).is_hidden(),
{
    let mut planes: Vec<ScaleOpacity> = Vec::with_capacity(len);
    let mut k: usize = 0;
    while k < len
        invariant
            k <= len,
            planes@.len() == k,
            forall|j: int| 0 <= j < k ==> (#[trigger] planes@[j]).is_hidden(),
        decreases len - k,
    {
        planes.push(ScaleOpacity::hidden());
        k = k + 1;
    }
    planes
}

/// Decides what is to be done about a patch in a cloud of `capacity` splats.
pub fn plan_write(write: CompositeWrite, capacity: usize) -> (r: CompositeStep)
    requires
        write.wf(),
    ensures
        is_step(write, capacity, r),
{
    match write {
        CompositeWrite::Block { asset, offset, data } => {
            let end = offset + data.len();
            if end > capacity {
                CompositeStep::Refuse { clear: false, offset, end, capacity }
            } else {
                CompositeStep::Upload { asset, offset, data }
            }
        },
        CompositeWrite::Clear { asset, offset, len } => {
            let end = offset + len;
            if end > capacity {
                CompositeStep::Refuse { clear: true, offset, end, capacity }
            } else {
                CompositeStep::Hide { asset, offset, planes: hidden_planes(len) }
            }
        },
    }
}

/// The patches whose cloud has no buffers yet, in order. `prepared[k]` is the
/// number of splats of the cloud that patch `k` is for, once it has buffers.
pub open spec fn waiting(
    writes: Seq<CompositeWrite>,
    prepared: Seq<Option<usize>>,
) -> Seq<CompositeWrite>
    decreases writes.len(),
{
    if writes.len() == 0 {
        Seq::empty()
    } else {
        let before = waiting(writes.drop_last(), prepared);
        if prepared[writes.len() - 1] is None {
            before.push(writes.last())
        } else {
            before
        }
    }
}

/// The patches whose cloud has buffers, in order, each with the number of its
/// cloud's splats.
pub open spec fn ready(
    writes: Seq<CompositeWrite>,
    prepared: Seq<Option<usize>>,
) -> Seq<(CompositeWrite, usize)>
    decreases writes.len(),
{
    if writes.len() == 0 {
        Seq::empty()
    } else {
        let before = ready(writes.drop_last(), prepared);
        match prepared[writes.len() - 1] {
            Some(capacity) => before.push((writes.last(), capacity)),
            None => before,
        }
    }
}

/// Whether going through `writes` does `steps` and leaves `rest` for the next
/// time.
pub open spec fn drained(
    writes: Seq<CompositeWrite>,
    prepared: Seq<Option<usize>>,
    rest: Seq<CompositeWrite>,
    steps: Seq<CompositeStep>,
) -> bool {
    &&& rest == waiting(writes, prepared)
    &&& steps.len() == ready(writes, prepared).len()
    &&& forall|k: int|
        0 <= k < steps.len() ==> is_step(
            ready(writes, prepared)[k].0,
            ready(writes, prepared)[k].1,
            #[trigger] steps[k],
        )
}

/// Patches with one more behind them.
pub open spec fn queued(writes: Seq<CompositeWrite>, write: CompositeWrite) -> Seq<CompositeWrite> {
    writes.push(write)
}

/// Patches on their way from the streaming side to the buffers.
#[derive(Debug)]
pub struct CompositeWriteQueue {
    pub writes: Vec<CompositeWrite>,
}

impl CompositeWriteQueue {
    /// Every patch is sound.
    pub open spec fn wf(self) -> bool {
        forall|k: int| 0 <= k < self.writes@.len() ==> (#[trigger] self.writes@[k]).wf()
    }

    /// An empty queue.
    pub fn new() -> (r: CompositeWriteQueue)
        ensures
            r.wf(),
            r.writes@.len() == 0,
    {
        CompositeWriteQueue { writes: Vec::new() }
    }

    /// Adds a patch at the end.
    pub fn push(&mut self, write: CompositeWrite)
        requires
            old(self).wf(),
            write.wf(),
        ensures
            final(self).wf(),
            final(self).writes@ == queued(old(self).writes@, write),
    {
        self.writes.push(write);
    }

    /// Number of patches.
    pub fn len(&self) -> (r: usize)
        ensures
            r == self.writes@.len(),
    {
        self.writes.len()
    }

    /// Whether there are no patches.
    pub fn is_empty(&self) -> (r: bool)
        ensures
            r == (self.writes@.len() == 0),
    {
        self.writes.len() == 0
    }

    /// Takes every patch whose cloud has buffers and says what is to be done
    /// about it; the others stay for the next time. `prepared[k]` is the number
    /// of splats of the cloud that patch `k` is for, once it has buffers.
    pub fn drain(&mut self, prepared: &Vec<Option<usize>>) -> (r: Vec<CompositeStep>)
        requires
            old(self).wf(),
            prepared@.len() == old(self).writes@.len(),
        ensures
            final(self).wf(),
            drained(old(self).writes@, prepared@, final(self).writes@, r@),
    {
        let mut rest: Vec<CompositeWrite> = Vec::new();
        let mut steps: Vec<CompositeStep> = Vec::new();
        let ghost all = self.writes@;
        let total = prepared.len();
        let mut left: Vec<CompositeWrite> = Vec::new();
        while self.writes.len() > 0
            invariant
                self.writes@.len() + left@.len() == all.len(),
                self.writes@ == all.subrange(0, self.writes@.len() as int),
                forall|k: int|
                    0 <= k < left@.len() ==> #[trigger] left@[k] == all[all.len() - 1 - k],
            decreases self.writes@.len(),
        {
            let write = self.writes.pop().unwrap();
            left.push(write);
        }
        let mut k: usize = 0;
        assert(all.subrange(0, 0) =~= Seq::empty());
        while left.len() > 0
            invariant
                forall|j: int| 0 <= j < all.len() ==> (#[trigger] all[j]).wf(),
                prepared@.len() == all.len() == total,
                k + left@.len() == all.len(),
                forall|j: int|
                    0 <= j < left@.len() ==> #[trigger] left@[j] == all[all.len() - 1 - j],
                rest@ == waiting(all.subrange(0, k as int), prepared@),
                forall|j: int| 0 <= j < rest@.len() ==> (#[trigger] rest@[j]).wf(),
                steps@.len() == ready(all.subrange(0, k as int), prepared@).len(),
                forall|j: int|
                    0 <= j < steps@.len() ==> is_step(
                        ready(all.subrange(0, k as int), prepared@)[j].0,
                        ready(all.subrange(0, k as int), prepared@)[j].1,
                        #[trigger] steps@[j],
                    ),
            decreases left@.len(),
        {
            let write = left.pop().unwrap();
            let ghost seen = all.subrange(0, k + 1);
            assert(seen.drop_last() =~= all.subrange(0, k as int));
            assert(seen.last() == write);
            match prepared[k] {
                Some(capacity) => {
                    steps.push(plan_write(write, capacity));
                },
                None => {
                    rest.push(write);
                },
            }
            k = k + 1;
        }
        assert(all.subrange(0, k as int) =~= all);
        self.writes = rest;
        steps
    }
}

/// Where an element starts in a buffer of elements of `stride` bytes.
pub open spec fn plane_start(element: int, stride: int) -> int {
    element * stride
}

/// Where splat `splat_offset` starts in a buffer of elements of `stride` bytes.
pub fn plane_offset(splat_offset: usize, stride: usize) -> (r: usize)
    requires
        splat_offset * stride <= usize::MAX,
    ensures
        r == plane_start(splat_offset as int, stride as int),
{
    splat_offset * stride
}

/// No patch is lost and none is done twice: each is either acted on or waits.
pub proof fn every_patch_is_done_or_waits(
    writes: Seq<CompositeWrite>,
    prepared: Seq<Option<usize>>,
    k: int,
)
    requires
        0 <= k < writes.len() <= prepared.len(),
    ensures
        waiting(writes, prepared).len() + ready(writes, prepared).len() == writes.len(),
        match prepared[k] {
            None => waiting(writes, prepared).contains(writes[k]),
            Some(capacity) => ready(writes, prepared).contains((writes[k], capacity)),
        },
    decreases writes.len(),
{
    let before = writes.drop_last();
    let last = writes.len() - 1;
    if before.len() > 0 {
        let j = if k < last {
            k
        } else {
            0
        };
        every_patch_is_done_or_waits(before, prepared, j);
    } else {
        assert(waiting(before, prepared).len() == 0 && ready(before, prepared).len() == 0);
    }
    let now = waiting(writes, prepared);
    let done = ready(writes, prepared);
    if k < last {
        match prepared[k] {
            None => {
                let was = waiting(before, prepared);
                let at = choose|at: int| 0 <= at < was.len() && was[at] == writes[k];
                assert(now[at] == writes[k]);
            },
            Some(capacity) => {
                let was = ready(before, prepared);
                let at = choose|at: int| 0 <= at < was.len() && was[at] == (writes[k], capacity);
                assert(done[at] == (writes[k], capacity));
            },
        }
    } else {
        match prepared[k] {
            None => {
                assert(now[now.len() - 1] == writes[k]);
            },
            Some(capacity) => {
                assert(done[done.len() - 1] == (writes[k], capacity));
            },
        }
    }
}

/// The splats of a cloud once a step is done: an upload replaces the splats from
/// its offset on, hiding replaces their extents and opacities only, and a refusal
/// changes nothing.
pub open spec fn applied(step: CompositeStep, buffer: Seq<Gaussian3d>) -> Seq<Gaussian3d> {
    match step {
        CompositeStep::Upload { offset, data, .. } => Seq::new(
            buffer.len(),
            |i: int|
                if offset <= i < offset + data.spec_len() {
                    data.splat(i - offset)
                } else {
                    buffer[i]
                },
        ),
        CompositeStep::Hide { offset, planes, .. } => Seq::new(
            buffer.len(),
            |i: int|
                if offset <= i < offset + planes@.len() {
                    Gaussian3d { scale_opacity: planes@[i - offset], ..buffer[i] }
                } else {
                    buffer[i]
                },
        ),
        CompositeStep::Refuse { .. } => buffer,
    }
}

/// The cloud that a step changes, if it changes one.
pub open spec fn changed_cloud(step: CompositeStep) -> Option<u64> {
    match step {
        CompositeStep::Upload { asset, .. } => Some(asset),
        CompositeStep::Hide { asset, .. } => Some(asset),
        CompositeStep::Refuse { .. } => None,
    }
}

/// A block lands where it belongs: in its cloud, row `offset + j` becomes splat `j`
/// of the block in every attribute, and no other row changes. A block that would
/// end after the last splat changes nothing at all.
pub proof fn blocks_land_where_they_belong(
    asset: u64,
    offset: usize,
    data: PlanarGaussian3d,
    capacity: usize,
    step: CompositeStep,
    buffer: Seq<Gaussian3d>,
    i: int,
)
    requires
        data.wf(),
        is_step(CompositeWrite::Block { asset, offset, data }, capacity, step),
        buffer.len() == capacity,
        0 <= i < capacity,
    ensures
        applied(step, buffer).len() == capacity,
        offset + data.spec_len() > capacity ==> applied(step, buffer) == buffer
            && changed_cloud(step) is None,
        offset + data.spec_len() <= capacity ==> changed_cloud(step) == Some(asset),
        offset + data.spec_len() <= capacity && offset <= i < offset + data.spec_len() ==> {
            &&& applied(step, buffer)[i].position_visibility == data.position_visibility@[i - offset]
            &&& applied(step, buffer)[i].spherical_harmonic == data.spherical_harmonic@[i - offset]
            &&& applied(step, buffer)[i].rotation == data.rotation@[i - offset]
            &&& applied(step, buffer)[i].scale_opacity == data.scale_opacity@[i - offset]
        },
        !(offset <= i < offset + data.spec_len()) ==> applied(step, buffer)[i] == buffer[i],
{
}

/// Clearing hides exactly its rows: in its cloud they have no extent and no opacity
/// and keep everything else, and no other row changes. A clear that would end
/// after the last splat changes nothing at all.
pub proof fn clears_hide_their_rows(
    asset: u64,
    offset: usize,
    len: usize,
    capacity: usize,
    step: CompositeStep,
    buffer: Seq<Gaussian3d>,
    i: int,
)
    requires
        is_step(CompositeWrite::Clear { asset, offset, len }, capacity, step),
        buffer.len() == capacity,
        0 <= i < capacity,
    ensures
        applied(step, buffer).len() == capacity,
        offset + len > capacity ==> applied(step, buffer) == buffer && changed_cloud(step) is None,
        offset + len <= capacity ==> changed_cloud(step) == Some(asset),
        offset + len <= capacity && offset <= i < offset + len ==> {
            let row = applied(step, buffer)[i];
            &&& row.scale_opacity.log_scale is None
            &&& row.scale_opacity.opacity == 0
            &&& row.position_visibility == buffer[i].position_visibility
            &&& row.spherical_harmonic == buffer[i].spherical_harmonic
            &&& row.rotation == buffer[i].rotation
        },
        !(offset <= i < offset + len) ==> applied(step, buffer)[i] == buffer[i],
{
    if offset + len <= capacity && offset <= i < offset + len {
        if let CompositeStep::Hide { planes, .. } = step {
            assert(planes@[i - offset].is_hidden());
        }
    }
}

/// First index of a patch.
pub open spec fn first_row(write: CompositeWrite) -> int {
    match write {
        CompositeWrite::Block { offset, .. } => offset as int,
        CompositeWrite::Clear { offset, .. } => offset as int,
    }
}

/// Patches that share no row can be done in either order, and neither touches the
/// rows of the other.
pub proof fn patches_that_are_apart_commute(
    one: CompositeWrite,
    other: CompositeWrite,
    capacity: usize,
    first: CompositeStep,
    second: CompositeStep,
    buffer: Seq<Gaussian3d>,
    i: int,
)
    requires
        one.wf(),
        other.wf(),
        is_step(one, capacity, first),
        is_step(other, capacity, second),
        buffer.len() == capacity,
        one.end() <= first_row(other) || other.end() <= first_row(one),
        0 <= i < capacity,
    ensures
        applied(second, applied(first, buffer)) == applied(first, applied(second, buffer)),
        first_row(one) <= i < one.end() ==> applied(second, buffer)[i] == buffer[i],
        first_row(other) <= i < other.end() ==> applied(first, buffer)[i] == buffer[i],
{
    assert(applied(second, applied(first, buffer)) =~= applied(first, applied(second, buffer)));
}

/// A refusal says which patch, in which cloud size: it tells where the patch
/// starts, and the number of splats that there are; and it is given only where
/// the patch ends after them.
pub proof fn refusals_tell_what_was_refused(
    write: CompositeWrite,
    capacity: usize,
    step: CompositeStep,
)
    requires
        write.wf(),
        is_step(write, capacity, step),
    ensures
        step is Refuse <==> write.end() > capacity,
        step.warns() is Some <==> write.end() > capacity,
        step matches CompositeStep::Refuse { clear, offset, end, capacity: limit } ==> {
            let text = step.warns()->0;
            &&& clear == (write is Clear)
            &&& offset == first_row(write)
            &&& end == write.end()
            &&& limit == capacity
            &&& starts_with(
                text,
                (if write is Clear {
                    "composite clear "@
                } else {
                    "composite write "@
                }) + decimal(first_row(write) as nat) + ".."@ + decimal(write.end() as nat),
            )
            &&& ends_with(text, decimal(capacity as nat))
        },
{
    if let CompositeStep::Refuse { clear, offset, end, capacity: limit } = step {
        let word = if clear {
            "composite clear "@
        } else {
            "composite write "@
        };
        let head = word + decimal(offset as nat) + ".."@ + decimal(end as nat);
        let tail = decimal(limit as nat);
        let text = refusal(clear, offset as nat, end as nat, limit as nat);
        assert(text =~= head + " exceeds capacity "@ + tail);
        assert(text.subrange(0, head.len() as int) =~= head);
        assert(text.subrange(text.len() - tail.len(), text.len() as int) =~= tail);
    }
}

/// Patches keep their order: one that waits stands behind as many as wait before
/// it, and one whose cloud has buffers is acted on after as many as come before
/// it, each by the size of its own cloud.
pub proof fn patches_keep_their_order(
    writes: Seq<CompositeWrite>,
    prepared: Seq<Option<usize>>,
    rest: Seq<CompositeWrite>,
    steps: Seq<CompositeStep>,
    k: int,
)
    requires
        0 <= k < writes.len() <= prepared.len(),
        drained(writes, prepared, rest, steps),
    ensures
        rest.len() + steps.len() == writes.len(),
        match prepared[k] {
            None => {
                let at = count_below(|j: int| prepared[j] is None, k as nat) as int;
                at < rest.len() && rest[at] == writes[k]
            },
            Some(capacity) => {
                let at = count_below(|j: int| prepared[j] is Some, k as nat) as int;
                at < steps.len() && is_step(writes[k], capacity, steps[at])
            },
        },
{
    every_patch_is_done_or_waits(writes, prepared, k);
    lemma_places_in_lists(writes, prepared, k);
}

/// Where a patch stands among those that wait or are acted on.
proof fn lemma_places_in_lists(
    writes: Seq<CompositeWrite>,
    prepared: Seq<Option<usize>>,
    k: int,
)
    requires
        0 <= k <= writes.len() <= prepared.len(),
    ensures
        waiting(writes, prepared).len() == count_below(
            |j: int| prepared[j] is None,
            writes.len(),
        ),
        ready(writes, prepared).len() == count_below(
            |j: int| prepared[j] is Some,
            writes.len(),
        ),
        count_below(|j: int| prepared[j] is None, k as nat) <= waiting(writes, prepared).len(),
        count_below(|j: int| prepared[j] is Some, k as nat) <= ready(writes, prepared).len(),
        k < writes.len() && prepared[k] is None ==> {
            let at = count_below(|j: int| prepared[j] is None, k as nat) as int;
            at < waiting(writes, prepared).len() && waiting(writes, prepared)[at] == writes[k]
        },
        k < writes.len() && prepared[k] is Some ==> {
            let at = count_below(|j: int| prepared[j] is Some, k as nat) as int;
            at < ready(writes, prepared).len() && ready(writes, prepared)[at] == (
                writes[k],
                prepared[k]->0,
            )
        },
    decreases writes.len(),
{
    if writes.len() > 0 {
        let before = writes.drop_last();
        if k < writes.len() {
            lemma_places_in_lists(before, prepared, k);
            if k < before.len() {
                assert(before[k] == writes[k]);
            }
        } else {
            lemma_places_in_lists(before, prepared, 0);
        }
    }
}

/// Elements lie side by side: the first starts at the beginning of a buffer, and
/// each where the one before it ends.
pub proof fn elements_lie_side_by_side(element: int, stride: int)
    ensures
        plane_start(0, stride) == 0,
        plane_start(element + 1, stride) == plane_start(element, stride) + stride,
{
    assert(0 * stride == 0);
    assert((element + 1) * stride == element * stride + stride) by (nonlinear_arith);
}

/// A patch comes behind those that were there, which stay as they were.
pub proof fn patches_queue_behind(writes: Seq<CompositeWrite>, write: CompositeWrite, k: int)
    ensures
        queued(writes, write).len() == writes.len() + 1,
        queued(writes, write)[writes.len() as int] == write,
        0 <= k < writes.len() ==> queued(writes, write)[k] == writes[k],
{
}

/// A patch goes to the cloud that it is for, and ends after its last splat.
pub proof fn patches_know_their_cloud(
    asset: u64,
    offset: usize,
    data: PlanarGaussian3d,
    len: usize,
)
    ensures
        ({
            let block = CompositeWrite::Block { asset, offset, data };
            block.spec_asset() == asset && block.end() == offset + data.position_visibility@.len()
        }),
        ({
            let clear = CompositeWrite::Clear { asset, offset, len };
            clear.spec_asset() == asset && clear.end() == offset + len
        }),
{
}

} // verus!
