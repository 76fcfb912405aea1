//! The streaming state of a scene.
//!
//! For every leaf the runtime knows the level that is desired, the one that is
//! shown, and the one that is being decoded. A leaf keeps showing what it shows
//! until its replacement is there.

use std::sync::Arc;

use vstd::prelude::*;
use vstd::string::*;

use crate::float_bits::FloatBits;
use crate::gaussian::{Gaussian3d, PlanarGaussian3d};
use crate::io::lod::{
    leaf_views, nearest, nearest_level_is_nearest, GaussianLodScene, LeafView, SceneView,
};
use crate::stream::allocator::{
    blocks_never_overlap, count_below, free_lies_inside, lemma_capacity_fits,
    used_within_capacity, BlockAllocator,
};
use crate::stream::budget::{
    at_coarsest, budget_is_kept, coarsest, cost, every_leaf_has_a_turn, granted,
    grants_are_the_finest_that_fit, nearer_leaves_come_first, nearest_first, order_by_distance,
    possible, runs_cost_their_rows, share_budget, shared, sharing_starves_no_leaf, total_cost,
    turn_before, wishes_that_fit_come_true,
};
use crate::stream::composite::{
    applied, blocks_land_where_they_belong, clears_hide_their_rows, is_step, CompositeStep,
    CompositeWrite,
};
use crate::stream::plan::{
    action_views, cancels_are_for_other_levels, decodes_are_runs_of_their_leaves,
    decodes_stay_capped, frames_keep_units, leaves_get_what_they_need,
    leaves_have_their_turn_in_order, leaves_on_their_way_are_wanted, lemma_refs_bound,
    lemma_units_step, loads_are_for_missing_units, uses_follow_decodes, ActionView, Plan,
    StreamAction,
};
use crate::stream::settings::{band, level_covers_its_band, select_lod_level, LodSettings};
use crate::stream::units::{share, without_use, DecodedUnit, SogUnitCache, UnitEntry, UnitState};
use crate::text::{
    decimal, decimals_come_back, decimals_tell_numbers_apart, ends_with, push_index, starts_with,
};

verus! {

/// A run that is being decoded: its level and the unit that it comes from.
#[derive(Clone, Copy, Debug, PartialEq, Eq, Structural)]
pub struct PendingSwap {
    pub lod: usize,
    pub file: usize,
}

/// The settings that the choice of levels depends on.
#[derive(Clone, Copy, Debug)]
pub struct LodParams {
    pub forced_lod: Option<usize>,
    pub base_distance: FloatBits,
    pub multiplier: FloatBits,
}

impl LodParams {
    /// The same settings, the numbers compared as numbers.
    pub open spec fn same(self, other: LodParams) -> bool {
        &&& self.forced_lod == other.forced_lod
        &&& self.base_distance.same_number(other.base_distance)
        &&& self.multiplier.same_number(other.multiplier)
    }
}

/// Those of the settings that the choice of levels depends on.
pub open spec fn params_of(settings: LodSettings) -> LodParams {
    LodParams {
        forced_lod: settings.forced_lod,
        base_distance: settings.base_distance,
        multiplier: settings.multiplier,
    }
}

/// A cloud that shows the whole scene, and the block of each leaf in it.
#[derive(Debug)]
pub struct CompositeState {
    asset: u64,
    allocator: BlockAllocator,
    /// offset and length of the block of each leaf
    blocks: Vec<Option<(usize, usize)>>,
}

/// A composite cloud over sequences.
pub struct CompositeView {
    pub asset: u64,
    pub allocator: BlockAllocator,
    pub blocks: Seq<Option<(usize, usize)>>,
}

impl View for CompositeState {
    type V = CompositeView;

    closed spec fn view(&self) -> CompositeView {
        CompositeView { asset: self.asset, allocator: self.allocator, blocks: self.blocks@ }
    }
}

/// Splats in the blocks.
pub open spec fn block_sum(blocks: Seq<Option<(usize, usize)>>) -> int
    decreases blocks.len(),
{
    if blocks.len() == 0 {
        0
    } else {
        block_sum(blocks.drop_last()) + match blocks.last() {
            Some((_, len)) => len as int,
            None => 0,
        }
    }
}

impl CompositeView {
    /// Blocks are handed out, not empty, apart from each other, and nothing else
    /// is handed out.
    pub open spec fn wf(self) -> bool {
        &&& self.allocator.wf()
        &&& forall|i: int|
            0 <= i < self.blocks.len() ==> (#[trigger] self.blocks[i] matches Some((offset, len))
                ==> len > 0 && self.allocator.block_taken(offset as int, len as int))
        &&& forall|i: int, j: int|
            0 <= i < j < self.blocks.len() && (#[trigger] self.blocks[i]) is Some && (
            #[trigger] self.blocks[j]) is Some ==> apart(self.blocks[i]->0, self.blocks[j]->0)
        &&& forall|i: int|
            0 <= i < self.allocator.spec_capacity() ==> #[trigger] self.allocator.free_at(i)
                || self.covers(i)
        &&& self.allocator.spec_used() == block_sum(self.blocks)
    }

    /// Whether index `i` lies in the block of some leaf.
    pub open spec fn covers(self, i: int) -> bool {
        exists|j: int| 0 <= j < self.blocks.len() && in_block(#[trigger] self.blocks[j], i)
    }
}

/// Whether two blocks share no index.
pub open spec fn apart(a: (usize, usize), b: (usize, usize)) -> bool {
    a.0 + a.1 <= b.0 || b.0 + b.1 <= a.0
}

/// The streaming state of a scene, leaf by leaf.
#[derive(Debug)]
pub struct LodRuntime {
    desired: Vec<Option<usize>>,
    active: Vec<Option<usize>>,
    entities: Vec<Option<u64>>,
    pending: Vec<Option<PendingSwap>>,
    last_eval: Option<[FloatBits; 3]>,
    last_params: Option<LodParams>,
    composite: Option<CompositeState>,
}

/// The streaming state over sequences.
#[verifier::ext_equal]
pub struct RuntimeView {
    /// level that a leaf should be shown at
    pub desired: Seq<Option<usize>>,
    /// level that a leaf is shown at
    pub active: Seq<Option<usize>>,
    /// what shows a leaf, where each has a cloud of its own
    pub entities: Seq<Option<u64>>,
    /// run that is being decoded for a leaf
    pub pending: Seq<Option<PendingSwap>>,
    /// where the camera was when levels were last chosen
    pub last_eval: Option<[FloatBits; 3]>,
    /// settings that levels were last chosen by
    pub last_params: Option<LodParams>,
    pub composite: Option<CompositeView>,
}

impl View for LodRuntime {
    type V = RuntimeView;

    closed spec fn view(&self) -> RuntimeView {
        RuntimeView {
            desired: self.desired@,
            active: self.active@,
            entities: self.entities@,
            pending: self.pending@,
            last_eval: self.last_eval,
            last_params: self.last_params,
            composite: match self.composite {
                Some(composite) => Some(composite@),
                None => None,
            },
        }
    }
}

impl RuntimeView {
    /// Number of leaves.
    pub open spec fn leaves(self) -> nat {
        self.desired.len()
    }

    /// One entry per leaf everywhere; in a composite cloud exactly the leaves
    /// that are shown have a block.
    pub open spec fn wf(self) -> bool {
        &&& self.active.len() == self.desired.len()
        &&& self.entities.len() == self.desired.len()
        &&& self.pending.len() == self.desired.len()
        &&& self.composite matches Some(composite) ==> {
            &&& composite.wf()
            &&& composite.blocks.len() == self.desired.len()
            &&& forall|i: int|
                0 <= i < self.desired.len() ==> ((#[trigger] composite.blocks[i]) is Some
                    <==> self.active[i] is Some)
        }
    }
}

/// How many runs are being decoded that satisfy `p`.
pub open spec fn count_swaps(
    pending: Seq<Option<PendingSwap>>,
    p: spec_fn(PendingSwap) -> bool,
) -> nat
    decreases pending.len(),
{
    if pending.len() == 0 {
        0
    } else {
        count_swaps(pending.drop_last(), p) + match pending.last() {
            Some(swap) => if p(swap) {
                1nat
            } else {
                0nat
            },
            None => 0nat,
        }
    }
}

/// How many runs are being decoded.
pub open spec fn flying(pending: Seq<Option<PendingSwap>>) -> nat {
    count_swaps(pending, |swap: PendingSwap| true)
}

/// How many runs are being decoded from a unit.
pub open spec fn flying_from(pending: Seq<Option<PendingSwap>>, file: usize) -> nat {
    count_swaps(pending, |swap: PendingSwap| swap.file == file)
}

/// The leaves that are shown, each with its level, in order.
pub open spec fn shown(active: Seq<Option<usize>>) -> Seq<(usize, usize)>
    decreases active.len(),
{
    if active.len() == 0 {
        Seq::empty()
    } else {
        let before = shown(active.drop_last());
        match active.last() {
            Some(lod) => before.push(((active.len() - 1) as usize, lod)),
            None => before,
        }
    }
}

/// Whether nothing is desired, shown or being decoded of so many leaves, and no
/// levels were chosen yet.
pub open spec fn nothing_shown(runtime: RuntimeView, leaves: nat) -> bool {
    &&& runtime.desired == Seq::new(leaves, |i: int| None::<usize>)
    &&& runtime.active == Seq::new(leaves, |i: int| None::<usize>)
    &&& runtime.entities == Seq::new(leaves, |i: int| None::<u64>)
    &&& runtime.pending == Seq::new(leaves, |i: int| None::<PendingSwap>)
    &&& runtime.last_eval is None
    &&& runtime.last_params is None
}

/// Whether a composite cloud is `asset`, holds `capacity` splats, and has a block for
/// none of so many leaves.
pub open spec fn is_empty_cloud(
    composite: CompositeView,
    leaves: nat,
    asset: u64,
    capacity: int,
) -> bool {
    &&& composite.asset == asset
    &&& composite.allocator.spec_capacity() == capacity
    &&& composite.allocator.spec_used() == 0
    &&& composite.blocks == Seq::new(leaves, |i: int| None::<(usize, usize)>)
}

/// Splats in use in the composite cloud, if there is one.
pub open spec fn used_of(runtime: RuntimeView) -> Option<nat> {
    match runtime.composite {
        Some(composite) => Some(composite.allocator.spec_used()),
        None => None,
    }
}

/// The composite cloud, if there is one.
pub open spec fn cloud_of(runtime: RuntimeView) -> Option<u64> {
    match runtime.composite {
        Some(composite) => Some(composite.asset),
        None => None,
    }
}

/// Nothing for every leaf.
fn nothing<T>(leaves: usize) -> (r: Vec<Option<T>>)
    ensures
        r@ == Seq::new(leaves as nat, |i: int| None::<T>),
{
    let mut list: Vec<Option<T>> = Vec::with_capacity(leaves);
    while list.len() < leaves
        invariant
            list@.len() <= leaves,
            forall|i: int| 0 <= i < list@.len() ==> (#[trigger] list@[i]) is None,
        decreases leaves - list@.len(),
    {
        list.push(None);
    }
    assert(list@ =~= Seq::new(leaves as nat, |i: int| None::<T>));
    list
}

/// No blocks, no splats.
proof fn lemma_no_blocks(blocks: Seq<Option<(usize, usize)>>)
    requires
        forall|i: int| 0 <= i < blocks.len() ==> (#[trigger] blocks[i]) is None,
    ensures
        block_sum(blocks) == 0,
    decreases blocks.len(),
{
    if blocks.len() > 0 {
        lemma_no_blocks(blocks.drop_last());
        assert(blocks[blocks.len() - 1] is None);
    }
}

impl LodRuntime {
    /// The state holds together.
    pub open spec fn wf(self) -> bool {
        self@.wf()
    }

    /// The state of a scene of which nothing is shown yet.
    pub fn new(leaves: usize) -> (r: LodRuntime)
        ensures
            r.wf(),
            nothing_shown(r@, leaves as nat),
            r@.composite is None,
    {
        LodRuntime {
            desired: nothing(leaves),
            active: nothing(leaves),
            entities: nothing(leaves),
            pending: nothing(leaves),
            last_eval: None,
            last_params: None,
            composite: None,
        }
    }

    /// The state of a scene that is shown through the cloud `asset`, which holds
    /// `capacity` splats.
    pub fn with_composite(leaves: usize, asset: u64, capacity: usize) -> (r: LodRuntime)
        ensures
            r.wf(),
            nothing_shown(r@, leaves as nat),
            r@.composite matches Some(composite) && is_empty_cloud(
                composite,
                leaves as nat,
                asset,
                capacity as int,
            ),
    {
        let mut runtime = LodRuntime::new(leaves);
        let composite = CompositeState {
            asset,
            allocator: BlockAllocator::new(capacity),
            blocks: nothing(leaves),
        };
        proof {
            lemma_no_blocks(composite.blocks@);
        }
        runtime.composite = Some(composite);
        runtime
    }

    /// Where the camera was when levels were last chosen.
    pub fn last_eval(&self) -> (r: Option<[FloatBits; 3]>)
        ensures
            r == self@.last_eval,
    {
        self.last_eval
    }

    /// Number of leaves.
    pub fn leaves(&self) -> (r: usize)
        ensures
            r == self@.leaves(),
    {
        self.desired.len()
    }

    /// The leaves that are shown, each with its level, in order.
    pub fn active_lods(&self) -> (r: Vec<(usize, usize)>)
        ensures
            r@ == shown(self@.active),
    {
        let mut list: Vec<(usize, usize)> = Vec::new();
        let mut i: usize = 0;
        assert(self.active@.subrange(0, 0) =~= Seq::empty());
        while i < self.active.len()
            invariant
                i <= self.active@.len(),
                list@ == shown(self.active@.subrange(0, i as int)),
            decreases self.active@.len() - i,
        {
            let ghost longer = self.active@.subrange(0, i + 1);
            assert(longer.drop_last() =~= self.active@.subrange(0, i as int));
            assert(longer.last() == self.active@[i as int]);
            if let Some(lod) = self.active[i] {
                list.push((i, lod));
            }
            i = i + 1;
        }
        assert(self.active@.subrange(0, i as int) =~= self.active@);
        list
    }

    /// How many runs are being decoded.
    pub fn in_flight(&self) -> (r: usize)
        ensures
            r == flying(self@.pending),
    {
        let mut count: usize = 0;
        let mut i: usize = 0;
        assert(self.pending@.subrange(0, 0) =~= Seq::empty());
        while i < self.pending.len()
            invariant
                count <= i <= self.pending@.len(),
                count == flying(self.pending@.subrange(0, i as int)),
            decreases self.pending@.len() - i,
        {
            let ghost longer = self.pending@.subrange(0, i + 1);
            assert(longer.drop_last() =~= self.pending@.subrange(0, i as int));
            assert(longer.last() == self.pending@[i as int]);
            if self.pending[i].is_some() {
                count = count + 1;
            }
            i = i + 1;
        }
        assert(self.pending@.subrange(0, i as int) =~= self.pending@);
        count
    }

    /// Splats in use in the composite cloud, if the scene has one.
    pub fn composite_used(&self) -> (r: Option<usize>)
        requires
            self.wf(),
        ensures
            r is Some <==> used_of(self@) is Some,
            r matches Some(n) ==> used_of(self@) == Some(n as nat),
    {
        match &self.composite {
            Some(composite) => Some(composite.allocator.used()),
            None => None,
        }
    }

    /// The composite cloud, if the scene has one.
    pub fn composite_handle(&self) -> (r: Option<u64>)
        ensures
            r == cloud_of(self@),
    {
        match &self.composite {
            Some(composite) => Some(composite.asset),
            None => None,
        }
    }

    /// Whether levels are to be chosen anew: the camera has moved far enough
    /// since the last time, there was no last time, or the settings differ.
    /// `travelled` is how far the camera is from where it was then.
    pub fn needs_evaluation(&self, travelled: Option<FloatBits>, settings: &LodSettings) -> (r: bool)
        requires
            travelled is Some <==> self@.last_eval is Some,
        ensures
            r == stale_choice(self@, travelled, *settings),
    {
        let moved = match travelled {
            Some(distance) => settings.update_distance.lt(distance),
            None => true,
        };
        let same = match &self.last_params {
            Some(params) => params.forced_lod == settings.forced_lod && params.base_distance.equals(
                settings.base_distance,
            ) && params.multiplier.equals(settings.multiplier),
            None => false,
        };
        moved || !same
    }
}

/// Whether levels are to be chosen anew.
pub open spec fn stale_choice(
    runtime: RuntimeView,
    travelled: Option<FloatBits>,
    settings: LodSettings,
) -> bool {
    ||| match travelled {
        Some(distance) => settings.update_distance.below(distance),
        None => true,
    }
    ||| match runtime.last_params {
        Some(params) => !params.same(params_of(settings)),
        None => true,
    }
}

/// The level that a leaf wishes: the forced one or that of its distance, as far
/// as the leaf has it.
pub open spec fn wish(
    scene: SceneView,
    settings: LodSettings,
    distances: Seq<FloatBits>,
    thresholds: Seq<FloatBits>,
    i: int,
) -> Option<usize> {
    let level = match settings.forced_lod {
        Some(level) => level as int,
        None => band(distances[i], thresholds, scene.lod_levels as int),
    };
    match nearest(scene.leaves[i].lods, level) {
        Some(l) => Some(l as usize),
        None => None,
    }
}

/// The levels that the leaves wish.
pub open spec fn all_wishes(
    scene: SceneView,
    settings: LodSettings,
    distances: Seq<FloatBits>,
    thresholds: Seq<FloatBits>,
) -> Seq<Option<usize>> {
    Seq::new(scene.leaves.len(), |i: int| wish(scene, settings, distances, thresholds, i))
}

/// Whether `levels` is what the leaves get: what they wish, or in a composite
/// cloud what its splats pay for, nearest leaf first.
pub open spec fn are_chosen(
    runtime: RuntimeView,
    scene: SceneView,
    settings: LodSettings,
    distances: Seq<FloatBits>,
    thresholds: Seq<FloatBits>,
    levels: Seq<Option<usize>>,
) -> bool {
    let wishes = all_wishes(scene, settings, distances, thresholds);
    match runtime.composite {
        None => levels == wishes,
        Some(composite) => exists|order: Seq<usize>| #[trigger]
            nearest_first(distances, order) && levels == shared(
                scene.leaves,
                wishes,
                order,
                composite.allocator.spec_capacity() as int,
            ),
    }
}

/// Whether `after` is the state once levels are chosen for a camera: the leaves
/// have their levels, where and by which settings they were chosen is kept, and
/// nothing else changes.
pub open spec fn is_evaluated(
    before: RuntimeView,
    scene: SceneView,
    settings: LodSettings,
    camera: [FloatBits; 3],
    distances: Seq<FloatBits>,
    thresholds: Seq<FloatBits>,
    after: RuntimeView,
) -> bool {
    let n = scene.leaves.len() as int;
    let all = before.desired.len() as int;
    &&& after == (RuntimeView {
        desired: after.desired,
        last_eval: Some(camera),
        last_params: Some(params_of(settings)),
        ..before
    })
    &&& after.desired.len() == all
    &&& are_chosen(
        before,
        scene,
        settings,
        distances,
        thresholds,
        after.desired.subrange(0, n),
    )
    &&& after.desired.subrange(n, all) == before.desired.subrange(n, all)
}

impl LodRuntime {
    /// Chooses the level of every leaf. `distances` are those of the leaves from
    /// the camera, `thresholds` the ends of the bands.
    pub fn evaluate(
        &mut self,
        scene: &GaussianLodScene,
        settings: &LodSettings,
        camera: [FloatBits; 3],
        distances: &Vec<FloatBits>,
        thresholds: &Vec<FloatBits>,
    )
        requires
            old(self).wf(),
            scene.leaves@.len() <= old(self)@.leaves(),
            distances@.len() == scene.leaves@.len(),
            thresholds@.len() + 1 >= scene.lod_levels,
        ensures
            final(self).wf(),
            is_evaluated(
                old(self)@,
                scene@,
                *settings,
                camera,
                distances@,
                thresholds@,
                final(self)@,
            ),
    {
        let ghost before = self@;
        let mut wishes: Vec<Option<usize>> = Vec::new();
        while wishes.len() < scene.leaves.len()
            invariant
                distances@.len() == scene.leaves@.len(),
                thresholds@.len() + 1 >= scene.lod_levels,
                wishes@.len() <= scene.leaves@.len(),
                forall|i: int|
                    0 <= i < wishes@.len() ==> #[trigger] wishes@[i] == wish(
                        scene@,
                        *settings,
                        distances@,
                        thresholds@,
                        i,
                    ),
            decreases scene.leaves@.len() - wishes@.len(),
        {
            let i = wishes.len();
            let level = match settings.forced_lod {
                Some(level) => level,
                None => select_lod_level(distances[i], thresholds, scene.lod_levels),
            };
            assert(scene@.leaves[i as int] == scene.leaves@[i as int]@);
            wishes.push(scene.leaves[i].nearest_available(level));
        }
        assert(wishes@ =~= all_wishes(scene@, *settings, distances@, thresholds@));
        let levels = match &self.composite {
            None => wishes,
            Some(composite) => {
                let order = order_by_distance(distances);
                share_budget(&scene.leaves, &wishes, &order, composite.allocator.capacity())
            },
        };
        assert(are_chosen(before, scene@, *settings, distances@, thresholds@, levels@));
        let mut i: usize = 0;
        while i < levels.len()
            invariant
                i <= levels@.len() == scene.leaves@.len(),
                scene.leaves@.len() <= before.desired.len() == self.desired@.len(),
                self@ == (RuntimeView { desired: self.desired@, ..before }),
                forall|k: int| 0 <= k < i ==> #[trigger] self.desired@[k] == levels@[k],
                forall|k: int|
                    i <= k < self.desired@.len() ==> #[trigger] self.desired@[k]
                        == before.desired[k],
            decreases levels@.len() - i,
        {
            self.desired.set(i, levels[i]);
            i = i + 1;
        }
        self.last_eval = Some(camera);
        self.last_params = Some(
            LodParams {
                forced_lod: settings.forced_lod,
                base_distance: settings.base_distance,
                multiplier: settings.multiplier,
            },
        );
        assert(self.desired@.subrange(0, scene.leaves@.len() as int) =~= levels@);
        assert(self.desired@.subrange(
            scene.leaves@.len() as int,
            before.desired.len() as int,
        ) =~= before.desired.subrange(scene.leaves@.len() as int, before.desired.len() as int));
    }
}

/// The frame that a scene is about to have.
pub open spec fn plan_of(
    runtime: RuntimeView,
    units: Map<(u64, usize), UnitEntry>,
    scene_id: u64,
    scene: SceneView,
    settings: LodSettings,
) -> Plan {
    let flying = flying(runtime.pending);
    Plan {
        scene,
        scene_id,
        desired: runtime.desired,
        active: runtime.active,
        pending: runtime.pending,
        units,
        cooldown: settings.cooldown_frames,
        places: if flying < settings.max_decodes_in_flight {
            settings.max_decodes_in_flight - flying
        } else {
            0
        },
    }
}

/// Whether a frame that begins as `plan` leaves the state `after`, with the units
/// `units`, and has the host do `actions`.
pub open spec fn is_frame(
    plan: Plan,
    before: RuntimeView,
    after: RuntimeView,
    units: Map<(u64, usize), UnitEntry>,
    actions: Seq<StreamAction>,
) -> bool {
    let n = plan.scene.leaves.len();
    &&& after == (RuntimeView { pending: plan.pending_after(n as int), ..before })
    &&& units == plan.units_after(n as int)
    &&& action_views(actions) == plan.actions(n)
}

/// Changing one entry changes the count by the difference.
pub proof fn lemma_count_update(
    pending: Seq<Option<PendingSwap>>,
    p: spec_fn(PendingSwap) -> bool,
    i: int,
    swap: Option<PendingSwap>,
)
    requires
        0 <= i < pending.len(),
    ensures
        count_swaps(pending.update(i, swap), p) == count_swaps(pending, p) - (match pending[i] {
            Some(s) => if p(s) {
                1int
            } else {
                0int
            },
            None => 0int,
        }) + (match swap {
            Some(s) => if p(s) {
                1int
            } else {
                0int
            },
            None => 0int,
        }),
    decreases pending.len(),
{
    let after = pending.update(i, swap);
    if i == pending.len() - 1 {
        assert(after.drop_last() =~= pending.drop_last());
    } else {
        assert(after.drop_last() =~= pending.drop_last().update(i, swap));
        lemma_count_update(pending.drop_last(), p, i, swap);
    }
}

/// No more runs are being decoded than there are leaves.
proof fn lemma_flying_bound(pending: Seq<Option<PendingSwap>>)
    ensures
        flying(pending) <= pending.len(),
    decreases pending.len(),
{
    if pending.len() > 0 {
        lemma_flying_bound(pending.drop_last());
    }
}

impl LodRuntime {
    /// Gives up what is being decoded for a leaf.
    fn cancel_pending(&mut self, leaf: usize, cache: &mut SogUnitCache, scene_id: u64)
        requires
            old(cache).wf(),
            leaf < old(self)@.pending.len(),
        ensures
            final(cache).wf(),
            final(self)@ == (RuntimeView {
                pending: old(self)@.pending.update(leaf as int, None),
                ..old(self)@
            }),
            final(cache)@ == (match old(self)@.pending[leaf as int] {
                Some(swap) => without_use(old(cache)@, (scene_id, swap.file)),
                None => old(cache)@,
            }),
    {
        let swap = self.pending[leaf];
        self.pending.set(leaf, None);
        if let Some(swap) = swap {
            cache.end_use(scene_id, swap.file);
        }
    }

    /// Gives every leaf its turn: gives up runs for levels that are no longer
    /// desired, asks for units, and begins to decode runs while there are places.
    /// Returns what the host is to do about it.
    pub fn manage_units(
        &mut self,
        cache: &mut SogUnitCache,
        scene_id: u64,
        scene: &GaussianLodScene,
        settings: &LodSettings,
    ) -> (r: Vec<StreamAction>)
        requires
            old(self).wf(),
            old(cache).wf(),
            plan_of(old(self)@, old(cache)@, scene_id, scene@, *settings).possible(),
        ensures
            final(self).wf(),
            final(cache).wf(),
            is_frame(
                plan_of(old(self)@, old(cache)@, scene_id, scene@, *settings),
                old(self)@,
                final(self)@,
                final(cache)@,
                r@,
            ),
    {
        let ghost before = self@;
        let ghost plan = plan_of(before, cache@, scene_id, scene@, *settings);
        let flying_now = self.in_flight();
        let mut places: usize = if flying_now < settings.max_decodes_in_flight {
            settings.max_decodes_in_flight - flying_now
        } else {
            0
        };
        let ghost most: int = places + flying_now;
        let mut actions: Vec<StreamAction> = Vec::new();
        let mut i: usize = 0;
        proof {
            lemma_flying_bound(before.pending);
            assert(self.pending@ =~= plan.pending_after(0));
            assert(cache@ =~= plan.units_after(0)) by {
                assert forall|key: (u64, usize)| cache@.contains_key(key) implies cache@[key]
                    == #[trigger] plan.units_after(0)[key] by {
                    assert(!plan.touched(key, 0));
                }
            }
            assert(action_views(actions@) =~= plan.actions(0));
        }
        while i < scene.leaves.len()
            invariant
                plan.possible(),
                plan.scene == scene@,
                plan.scene_id == scene_id,
                plan.desired == before.desired,
                plan.active == before.active,
                plan.pending == before.pending,
                plan.cooldown == settings.cooldown_frames,
                before.wf(),
                i <= scene.leaves@.len() <= before.desired.len(),
                scene@.leaves == leaf_views(scene.leaves@),
                cache.wf(),
                cache@ == plan.units_after(i as int),
                self@ == (RuntimeView { pending: self.pending@, ..before }),
                self.pending@ == plan.pending_after(i as int),
                places == plan.places + plan.given_up(i as nat) - plan.begun(i as nat),
                places + flying(self.pending@) == most <= usize::MAX,
                action_views(actions@) == plan.actions(i as nat),
            decreases scene.leaves@.len() - i,
        {
            let ghost past = actions@;
            let ghost swaps = self.pending@;
            let ghost at = i as int;
            proof {
                lemma_units_step(plan, at);
                lemma_turn(plan, at, swaps, places as int, most);
                assert(swaps[at] == plan.pending[at]);
            }
            if let Some(desired) = self.desired[i] {
                let stale = match self.pending[i] {
                    Some(swap) => swap.lod != desired,
                    None => false,
                };
                assert(stale == plan.stale(at));
                if stale {
                    self.cancel_pending(i, cache, scene_id);
                    proof {
                        lemma_count_update(swaps, |s: PendingSwap| true, at, None);
                    }
                    places = places + 1;
                    let ghost sofar = actions@;
                    actions.push(StreamAction::Cancel { leaf: i });
                    assert(action_views(actions@) =~= action_views(sofar).push(actions@.last()@));
                }
                let there = match self.active[i] {
                    Some(active) => active == desired,
                    None => false,
                };
                if !there && self.pending[i].is_none() {
                    assert(plan.wanting(at));
                    assert(scene@.leaves[at] == scene.leaves@[at]@);
                    if let Some(run) = scene.leaves[i].lods[desired] {
                        assert(plan.run(at) == Some(run));
                        if cache.get(scene_id, run.file).is_none() {
                            assert(plan.loads(at));
                            assert(!plan.units.contains_key(plan.key(at)));
                            assert(scene@.filenames[run.file as int]
                                == scene.filenames@[run.file as int]@);
                            let path = scene.unit_path(scene.filenames[run.file].as_str());
                            let ghost sofar = actions@;
                            actions.push(StreamAction::Load { file: run.file, path });
                            assert(action_views(actions@) =~= action_views(sofar).push(
                                actions@.last()@,
                            ));
                            cache.begin_load(scene_id, run.file, settings.cooldown_frames);
                        }
                        let unit: Option<Arc<DecodedUnit>> = match cache.get(scene_id, run.file) {
                            Some(entry) => match &entry.state {
                                UnitState::Ready(unit) => Some(share(unit)),
                                _ => None,
                            },
                            None => None,
                        };
                        assert(unit is Some <==> plan.ready(at));
                        if let Some(unit) = unit {
                            if places > 0 {
                                assert(plan.begins(at));
                                places = places - 1;
                                let ghost middle = self.pending@;
                                cache.take_use(scene_id, run.file);
                                self.pending.set(
                                    i,
                                    Some(PendingSwap { lod: desired, file: run.file }),
                                );
                                proof {
                                    lemma_count_update(
                                        middle,
                                        |s: PendingSwap| true,
                                        at,
                                        Some(PendingSwap { lod: desired, file: run.file }),
                                    );
                                }
                                let ghost sofar = actions@;
                                actions.push(
                                    StreamAction::Decode {
                                        leaf: i,
                                        lod: desired,
                                        offset: run.offset,
                                        count: run.count,
                                        unit,
                                    },
                                );
                                assert(action_views(actions@) =~= action_views(sofar).push(
                                    actions@.last()@,
                                ));
                            }
                        }
                    }
                }
            }
            proof {
                assert(self.pending@ =~= plan.pending_after(at + 1));
                assert(action_views(actions@) =~= action_views(past) + plan.actions_of(at));
                assert(cache@ == plan.units_after(at + 1));
            }
            i = i + 1;
        }
        actions
    }
}

/// The numbers of a turn.
proof fn lemma_turn(
    plan: Plan,
    i: int,
    swaps: Seq<Option<PendingSwap>>,
    places: int,
    most: int,
)
    requires
        0 <= i < plan.scene.leaves.len(),
        plan.possible(),
        swaps == plan.pending_after(i),
        places == plan.places + plan.given_up(i as nat) - plan.begun(i as nat),
        places >= 0,
        places + flying(swaps) == most <= usize::MAX,
    ensures
        plan.given_up((i + 1) as nat) == plan.given_up(i as nat) + (if plan.stale(i) {
            1nat
        } else {
            0nat
        }),
        plan.begun((i + 1) as nat) == plan.begun(i as nat) + (if plan.begins(i) {
            1nat
        } else {
            0nat
        }),
        plan.stale(i) ==> flying(swaps) > 0,
{
    if plan.stale(i) {
        assert(swaps[i] == plan.pending[i]);
        lemma_count_update(swaps, |s: PendingSwap| true, i, None);
    }
}

impl LodRuntime {
    /// Whether every leaf can have its turn in a frame: the state has as many
    /// leaves as the scene, desired levels exist, units that have to be loaded
    /// have a path, and their uses can be counted.
    pub fn can_manage(
        &self,
        cache: &SogUnitCache,
        scene_id: u64,
        scene: &GaussianLodScene,
        settings: &LodSettings,
    ) -> (r: bool)
        requires
            self.wf(),
            cache.wf(),
        ensures
            r == plan_of(self@, cache@, scene_id, scene@, *settings).possible(),
    {
        let ghost plan = plan_of(self@, cache@, scene_id, scene@, *settings);
        if scene.leaves.len() > self.desired.len() || !cache.has_room(scene.leaves.len()) {
            return false;
        }
        let mut i: usize = 0;
        while i < scene.leaves.len()
            invariant
                self.wf(),
                cache.wf(),
                plan == plan_of(self@, cache@, scene_id, scene@, *settings),
                i <= scene.leaves@.len() <= self.desired@.len(),
                forall|k: int|
                    0 <= k < i && #[trigger] plan.wanting(k) ==> plan.desired[k]->0
                        < plan.scene.leaves[k].lods.len(),
                forall|k: int|
                    0 <= k < i && #[trigger] plan.asks(k) && !plan.units.contains_key(plan.key(k))
                        ==> plan.run(k)->0.file < plan.scene.filenames.len(),
            decreases scene.leaves@.len() - i,
        {
            let ghost at = i as int;
            assert(scene@.leaves[at] == scene.leaves@[at]@);
            if let Some(desired) = self.desired[i] {
                let there = match self.active[i] {
                    Some(active) => active == desired,
                    None => false,
                };
                let coming = match self.pending[i] {
                    Some(swap) => swap.lod == desired,
                    None => false,
                };
                if !there && !coming {
                    assert(plan.wanting(at));
                    if desired >= scene.leaves[i].lods.len() {
                        return false;
                    }
                    if let Some(run) = scene.leaves[i].lods[desired] {
                        assert(plan.asks(at));
                        if cache.get(scene_id, run.file).is_none() && run.file
                            >= scene.filenames.len() {
                            return false;
                        }
                    }
                }
            }
            i = i + 1;
        }
        true
    }
}

/// The wording of a failure to decode the run of a leaf.
pub open spec fn decode_failure(leaf: nat, reason: Seq<char>) -> Seq<char> {
    "leaf "@ + decimal(leaf) + " interval decode failed: "@ + reason
}

/// The name of the cloud that shows a leaf at a level.
pub open spec fn cloud_name(leaf: nat, lod: nat) -> Seq<char> {
    "lod_leaf_"@ + decimal(leaf) + "_lod"@ + decimal(lod)
}

/// The name of the cloud that shows a leaf at a level.
pub fn leaf_cloud_name(leaf: usize, lod: usize) -> (r: String)
    ensures
        r@ == cloud_name(leaf as nat, lod as nat),
{
    let mut out = String::new();
    out.append("lod_leaf_");
    push_index(&mut out, leaf);
    out.append("_lod");
    push_index(&mut out, lod);
    assert(out@ =~= cloud_name(leaf as nat, lod as nat));
    out
}

/// What became of a run.
#[derive(Debug)]
pub enum SwapOutcome {
    /// nothing was being decoded for the leaf
    Idle,
    /// the run is there, to be shown at level `lod`
    Arrived { lod: usize, splats: Vec<Gaussian3d> },
    /// the run could not be decoded
    Failed { warning: String },
}

/// Whether the end of decoding the run of a leaf, with `result`, leaves `after`
/// being decoded and the units `kept`, and comes to `outcome`.
pub open spec fn is_finished(
    pending: Seq<Option<PendingSwap>>,
    units: Map<(u64, usize), UnitEntry>,
    scene_id: u64,
    leaf: int,
    result: Result<Vec<Gaussian3d>, String>,
    after: Seq<Option<PendingSwap>>,
    kept: Map<(u64, usize), UnitEntry>,
    outcome: SwapOutcome,
) -> bool {
    &&& after == pending.update(leaf, None)
    &&& match pending[leaf] {
        None => outcome is Idle && kept == units,
        Some(swap) => kept == without_use(units, (scene_id, swap.file)) && match result {
            Ok(splats) => outcome == (SwapOutcome::Arrived { lod: swap.lod, splats }),
            Err(reason) => outcome matches SwapOutcome::Failed { warning } && warning@
                == decode_failure(leaf as nat, reason@),
        },
    }
}

impl LodRuntime {
    /// Takes the outcome of decoding the run of a leaf: the leaf is no longer on
    /// its way, and the unit has one use less.
    pub fn finish_decode(
        &mut self,
        cache: &mut SogUnitCache,
        scene_id: u64,
        leaf: usize,
        result: Result<Vec<Gaussian3d>, String>,
    ) -> (r: SwapOutcome)
        requires
            old(self).wf(),
            old(cache).wf(),
            leaf < old(self)@.leaves(),
        ensures
            final(self).wf(),
            final(cache).wf(),
            final(self)@ == (RuntimeView {
                pending: old(self)@.pending.update(leaf as int, None),
                ..old(self)@
            }),
            is_finished(
                old(self)@.pending,
                old(cache)@,
                scene_id,
                leaf as int,
                result,
                final(self)@.pending,
                final(cache)@,
                r,
            ),
    {
        let swap = match self.pending[leaf] {
            Some(swap) => swap,
            None => {
                assert(self@.pending =~= old(self)@.pending.update(leaf as int, None));
                return SwapOutcome::Idle;
            },
        };
        self.cancel_pending(leaf, cache, scene_id);
        match result {
            Ok(splats) => SwapOutcome::Arrived { lod: swap.lod, splats },
            Err(reason) => {
                let mut warning = String::new();
                warning.append("leaf ");
                push_index(&mut warning, leaf);
                warning.append(" interval decode failed: ");
                warning.append(reason.as_str());
                assert(warning@ =~= decode_failure(leaf as nat, reason@));
                SwapOutcome::Failed { warning }
            },
        }
    }

    /// Shows a leaf at a level through `entity`. Returns what showed it before,
    /// which is to disappear now and not earlier.
    pub fn show(&mut self, leaf: usize, lod: usize, entity: u64) -> (r: Option<u64>)
        requires
            old(self).wf(),
            old(self)@.composite is None,
            leaf < old(self)@.leaves(),
        ensures
            final(self).wf(),
            shows_on(old(self)@.active, final(self)@.active),
            is_shown(old(self)@, leaf as int, lod, entity, final(self)@, r),
    {
        let before = self.entities[leaf];
        self.entities.set(leaf, Some(entity));
        self.active.set(leaf, Some(lod));
        before
    }
}

/// Whether `after` is the state once a leaf is shown at a level through `entity`,
/// and `gone` is what showed it before.
pub open spec fn is_shown(
    before: RuntimeView,
    leaf: int,
    lod: usize,
    entity: u64,
    after: RuntimeView,
    gone: Option<u64>,
) -> bool {
    &&& gone == before.entities[leaf]
    &&& after == (RuntimeView {
        active: before.active.update(leaf, Some(lod)),
        entities: before.entities.update(leaf, Some(entity)),
        ..before
    })
}

/// Splats in a block; none without one.
pub open spec fn block_len(block: Option<(usize, usize)>) -> int {
    match block {
        Some((_, len)) => len as int,
        None => 0,
    }
}

/// Whether index `i` lies in a block.
pub open spec fn in_block(block: Option<(usize, usize)>, i: int) -> bool {
    match block {
        Some((offset, len)) => offset <= i < offset + len,
        None => false,
    }
}

/// Changing one block changes the sum by the difference.
proof fn lemma_block_sum_update(
    blocks: Seq<Option<(usize, usize)>>,
    i: int,
    block: Option<(usize, usize)>,
)
    requires
        0 <= i < blocks.len(),
    ensures
        block_sum(blocks.update(i, block)) == block_sum(blocks) - block_len(blocks[i]) + block_len(
            block,
        ),
    decreases blocks.len(),
{
    let after = blocks.update(i, block);
    if i == blocks.len() - 1 {
        assert(after.drop_last() =~= blocks.drop_last());
    } else {
        assert(after.drop_last() =~= blocks.drop_last().update(i, block));
        lemma_block_sum_update(blocks.drop_last(), i, block);
    }
}

impl CompositeView {
    /// Whether index `i` is free, or would be without the block of a leaf.
    pub open spec fn open_at(self, leaf: int, i: int) -> bool {
        self.allocator.free_at(i) || in_block(self.blocks[leaf], i)
    }

    /// Whether a leaf could move to the block of `len` splats from `offset`.
    pub open spec fn room_at(self, leaf: int, offset: int, len: int) -> bool {
        forall|i: int| offset <= i < offset + len ==> #[trigger] self.open_at(leaf, i)
    }

    /// Whether there is no room for a leaf to show `len` splats, its own block
    /// given back.
    pub open spec fn full_for(self, leaf: int, len: int) -> bool {
        len == 0 || forall|offset: int| !#[trigger] self.room_at(leaf, offset, len)
    }

    /// Whether `after` is this cloud with a leaf moved to a new block of `len`
    /// splats: the one of the lowest offset once the leaf's former block is given
    /// back.
    pub open spec fn moved(self, after: CompositeView, leaf: int, len: int) -> bool {
        &&& after.asset == self.asset
        &&& after.allocator.spec_capacity() == self.allocator.spec_capacity()
        &&& after.blocks[leaf] matches Some((offset, l)) && l == len && after.blocks
            == self.blocks.update(leaf, Some((offset, l))) && self.room_at(
            leaf,
            offset as int,
            len,
        ) && (forall|p: int| p < offset ==> !#[trigger] self.room_at(leaf, p, len))
        &&& forall|i: int| #[trigger]
            after.allocator.free_at(i) <==> self.open_at(leaf, i) && !in_block(
                after.blocks[leaf],
                i,
            )
    }
}

/// The patches that go with a leaf's move: its former block is hidden before its
/// splats are written, for the new block may lie over it.
pub open spec fn move_writes(
    before: CompositeView,
    after: CompositeView,
    leaf: int,
    data: PlanarGaussian3d,
) -> Seq<CompositeWrite> {
    let write = CompositeWrite::Block {
        asset: before.asset,
        offset: (after.blocks[leaf]->0).0,
        data,
    };
    match before.blocks[leaf] {
        Some((offset, len)) => seq![
            CompositeWrite::Clear { asset: before.asset, offset, len },
            write,
        ],
        None => seq![write],
    }
}

/// Whether `after` is the state once a leaf is shown at a level with the splats of
/// `data` in the composite cloud, and `writes` are the patches for the cloud.
pub open spec fn is_placed(
    before: RuntimeView,
    leaf: int,
    lod: usize,
    data: PlanarGaussian3d,
    after: RuntimeView,
    writes: Seq<CompositeWrite>,
) -> bool {
    if before.composite->0.full_for(leaf, data.spec_len() as int) {
        &&& after == before
        &&& writes.len() == 0
    } else {
        &&& after == (RuntimeView {
            active: before.active.update(leaf, Some(lod)),
            composite: after.composite,
            ..before
        })
        &&& after.composite is Some
        &&& before.composite->0.moved(after.composite->0, leaf, data.spec_len() as int)
        &&& writes == move_writes(before.composite->0, after.composite->0, leaf, data)
    }
}

/// Moving a leaf to a new block keeps the cloud sound. `released` has the leaf's
/// former block given back.
proof fn lemma_moved(
    before: CompositeView,
    released: BlockAllocator,
    after: CompositeView,
    leaf: int,
    offset: int,
    len: int,
)
    requires
        before.wf(),
        0 <= leaf < before.blocks.len(),
        0 < len,
        0 <= offset,
        offset + len <= before.allocator.spec_capacity() <= usize::MAX,
        released.spec_capacity() == before.allocator.spec_capacity(),
        released.spec_used() == before.allocator.spec_used() - block_len(before.blocks[leaf]),
        forall|i: int| #[trigger] released.free_at(i) <==> before.open_at(leaf, i),
        released.block_free(offset, len),
        after.allocator.wf(),
        after.allocator.spec_capacity() == released.spec_capacity(),
        after.allocator.spec_used() == released.spec_used() + len,
        forall|i: int| #[trigger]
            after.allocator.free_at(i) <==> released.free_at(i) && !(offset <= i < offset + len),
        after.blocks == before.blocks.update(leaf, Some((offset as usize, len as usize))),
    ensures
        after.wf(),
{
    lemma_block_sum_update(before.blocks, leaf, Some((offset as usize, len as usize)));
    assert forall|j: int|
        0 <= j < before.blocks.len() && j != leaf && (
        #[trigger] before.blocks[j]) is Some implies {
        let block = before.blocks[j]->0;
        (offset + len <= block.0 || block.0 + block.1 <= offset) && after.allocator.block_taken(
            block.0 as int,
            block.1 as int,
        )
    } by {
        let block = before.blocks[j]->0;
        if before.blocks[leaf] is Some {
            if j < leaf {
                assert(apart(before.blocks[j]->0, before.blocks[leaf]->0));
            } else {
                assert(apart(before.blocks[leaf]->0, before.blocks[j]->0));
            }
        }
        assert forall|i: int| block.0 <= i < block.0 + block.1 implies !#[trigger] released.free_at(
            i,
        ) by {
            assert(!before.allocator.free_at(i));
        }
        blocks_never_overlap(
            released,
            after.allocator,
            offset,
            len,
            block.0 as int,
            block.1 as int,
        );
    }
    assert forall|j: int| 0 <= j < after.blocks.len() implies (#[trigger] after.blocks[j] matches
        Some((o, l)) ==> l > 0 && after.allocator.block_taken(o as int, l as int)) by {
        if j != leaf {
            assert(after.blocks[j] == before.blocks[j]);
        }
    }
    assert forall|i: int| 0 <= i < after.allocator.spec_capacity() implies #[trigger]
        after.allocator.free_at(i) || after.covers(i) by {
        if !after.allocator.free_at(i) {
            if offset <= i < offset + len {
                assert(in_block(after.blocks[leaf], i));
            } else {
                assert(!released.free_at(i));
                assert(before.covers(i));
                let j = choose|j: int|
                    0 <= j < before.blocks.len() && in_block(#[trigger] before.blocks[j], i);
                assert(in_block(after.blocks[j], i));
            }
        }
    }
    assert forall|i: int, j: int|
        0 <= i < j < after.blocks.len() && (#[trigger] after.blocks[i]) is Some && (
        #[trigger] after.blocks[j]) is Some implies apart(after.blocks[i]->0, after.blocks[j]->0) by {
        if i != leaf {
            assert(after.blocks[i] == before.blocks[i]);
        }
        if j != leaf {
            assert(after.blocks[j] == before.blocks[j]);
        }
    }
}

impl LodRuntime {
    /// Shows a leaf at a level in the composite cloud: its former block is hidden
    /// and given back, and its splats get a new one. Without room even so, the leaf
    /// keeps what it shows. Returns the patches for the cloud.
    pub fn place(&mut self, leaf: usize, lod: usize, data: PlanarGaussian3d) -> (r: Vec<
        CompositeWrite,
    >)
        requires
            old(self).wf(),
            old(self)@.composite is Some,
            leaf < old(self)@.leaves(),
            data.wf(),
        ensures
            final(self).wf(),
            forall|k: int| 0 <= k < r@.len() ==> (#[trigger] r@[k]).wf(),
            shows_on(old(self)@.active, final(self)@.active),
            is_placed(old(self)@, leaf as int, lod, data, final(self)@, r@),
    {
        let mut writes: Vec<CompositeWrite> = Vec::new();
        let mut composite = match self.composite.take() {
            Some(composite) => composite,
            None => {
                return writes;
            },
        };
        let ghost before = composite@;
        let ghost at = leaf as int;
        let len = data.len();
        let mut allocator = composite.allocator.copied();
        let former = composite.blocks[leaf];
        assert(before.blocks[at] == former);
        if let Some((old_offset, old_len)) = former {
            allocator.free(old_offset, old_len);
        }
        let ghost released = allocator;
        proof {
            assert forall|i: int| #[trigger] released.free_at(i) <==> before.open_at(at, i) by {
                assert(before.allocator.free_at(i) || !before.allocator.free_at(i));
            }
            assert forall|p: int| #[trigger] released.block_free(p, len as int)
                <==> before.room_at(at, p, len as int) by {
                if before.room_at(at, p, len as int) {
                    assert forall|i: int| p <= i < p + len implies #[trigger] released.free_at(
                        i,
                    ) by {
                        assert(before.open_at(at, i));
                    }
                }
                if released.block_free(p, len as int) {
                    assert forall|i: int| p <= i < p + len implies #[trigger] before.open_at(
                        at,
                        i,
                    ) by {
                        assert(released.free_at(i));
                    }
                }
            }
        }
        let offset = match allocator.allocate(len) {
            Some(offset) => offset,
            None => {
                proof {
                    assert forall|p: int| len > 0 implies !#[trigger] before.room_at(
                        at,
                        p,
                        len as int,
                    ) by {
                        assert(!released.block_free(p, len as int));
                    }
                }
                self.composite = Some(composite);
                return writes;
            },
        };
        assert(released.block_free(offset as int, len as int));
        assert(before.room_at(at, offset as int, len as int));
        if let Some((old_offset, old_len)) = former {
            writes.push(
                CompositeWrite::Clear {
                    asset: composite.asset,
                    offset: old_offset,
                    len: old_len,
                },
            );
        }
        writes.push(CompositeWrite::Block { asset: composite.asset, offset, data });
        composite.allocator = allocator;
        composite.blocks.set(leaf, Some((offset, len)));
        proof {
            let after = composite@;
            lemma_capacity_fits(before.allocator);
            assert(after.blocks =~= before.blocks.update(at, Some((offset, len))));
            lemma_moved(before, released, after, at, offset as int, len as int);
            assert forall|p: int| p < offset implies !#[trigger] before.room_at(
                at,
                p,
                len as int,
            ) by {
                assert(!released.block_free(p, len as int));
            }
            assert forall|i: int| #[trigger]
                after.allocator.free_at(i) <==> before.open_at(at, i) && !in_block(
                    after.blocks[at],
                    i,
                ) by {
                assert(released.free_at(i) <==> before.open_at(at, i));
            }
            assert(before.moved(after, at, len as int));
            assert(writes@ =~= move_writes(before, after, at, data));
        }
        self.composite = Some(composite);
        self.active.set(leaf, Some(lod));
        writes
    }
}

/// A leaf always finds room to show fewer splats, or as many: its own block will
/// do.
pub proof fn smaller_runs_always_fit(composite: CompositeView, leaf: int, len: int)
    requires
        0 < len <= block_len(composite.blocks[leaf]),
    ensures
        !composite.full_for(leaf, len),
{
    let (offset, _) = composite.blocks[leaf]->0;
    assert forall|i: int| offset <= i < offset + len implies #[trigger] composite.open_at(
        leaf,
        i,
    ) by {}
    assert(composite.room_at(leaf, offset as int, len));
}

/// Number of blocks.
pub open spec fn block_count(blocks: Seq<Option<(usize, usize)>>) -> int
    decreases blocks.len(),
{
    if blocks.len() == 0 {
        0
    } else {
        block_count(blocks.drop_last()) + if blocks.last() is Some {
            1int
        } else {
            0int
        }
    }
}

/// Taking one block away leaves one fewer.
proof fn lemma_block_count_update(blocks: Seq<Option<(usize, usize)>>, i: int)
    requires
        0 <= i < blocks.len(),
        blocks[i] is Some,
    ensures
        block_count(blocks.update(i, None)) == block_count(blocks) - 1,
    decreases blocks.len(),
{
    let after = blocks.update(i, None);
    if i == blocks.len() - 1 {
        assert(after.drop_last() =~= blocks.drop_last());
    } else {
        assert(after.drop_last() =~= blocks.drop_last().update(i, None));
        lemma_block_count_update(blocks.drop_last(), i);
    }
}

/// Either there is no block, or one of them starts last.
proof fn lemma_last_block(blocks: Seq<Option<(usize, usize)>>) -> (m: int)
    ensures
        block_count(blocks) >= 0,
        block_count(blocks) == 0 ==> block_sum(blocks) == 0 && forall|j: int|
            0 <= j < blocks.len() ==> (#[trigger] blocks[j]) is None,
        block_count(blocks) > 0 ==> 0 <= m < blocks.len() && blocks[m] is Some && forall|j: int|
            0 <= j < blocks.len() && (#[trigger] blocks[j]) is Some ==> (blocks[j]->0).0 <= (
            blocks[m]->0).0,
    decreases blocks.len(),
{
    if blocks.len() == 0 {
        0
    } else {
        let last = blocks.len() - 1;
        let front = blocks.drop_last();
        let m = lemma_last_block(front);
        assert forall|j: int| 0 <= j < last implies #[trigger] blocks[j] == front[j] by {}
        if blocks[last] is Some && (block_count(front) == 0 || (blocks[m]->0).0 < (
        blocks[last]->0).0) {
            last
        } else {
            m
        }
    }
}

/// Whether the `len` indices from `offset` lie below `end` and in no block.
spec fn is_gap(blocks: Seq<Option<(usize, usize)>>, offset: int, len: int, end: int) -> bool {
    &&& 0 <= offset
    &&& offset + len <= end
    &&& forall|j: int|
        0 <= j < blocks.len() ==> ((#[trigger] blocks[j]) matches Some((o, l)) ==> o + l <= offset
            || offset + len <= o)
}

/// Blocks cut what they leave free into at most one piece more than there are
/// blocks, so one of the pieces has its share.
proof fn lemma_gap(blocks: Seq<Option<(usize, usize)>>, end: int, len: int) -> (offset: int)
    requires
        0 < len,
        forall|j: int|
            0 <= j < blocks.len() ==> ((#[trigger] blocks[j]) matches Some((o, l)) ==> l > 0 && o
                + l <= end),
        forall|i: int, j: int|
            0 <= i < j < blocks.len() && (#[trigger] blocks[i]) is Some && (
            #[trigger] blocks[j]) is Some ==> apart(blocks[i]->0, blocks[j]->0),
        end - block_sum(blocks) > (block_count(blocks) + 1) * (len - 1),
    ensures
        is_gap(blocks, offset, len, end),
    decreases block_count(blocks),
{
    let m = lemma_last_block(blocks);
    if block_count(blocks) == 0 {
        assert((block_count(blocks) + 1) * (len - 1) == len - 1) by (nonlinear_arith)
            requires
                block_count(blocks) == 0,
        ;
        0
    } else {
        let (o, l) = blocks[m]->0;
        assert forall|j: int| 0 <= j < blocks.len() && j != m implies ((
        #[trigger] blocks[j]) matches Some((p, q)) ==> p + q <= o) by {
            if blocks[j] is Some {
                if j < m {
                    assert(apart(blocks[j]->0, blocks[m]->0));
                } else {
                    assert(apart(blocks[m]->0, blocks[j]->0));
                }
            }
        }
        if end - (o + l) >= len {
            o + l
        } else {
            let rest = blocks.update(m, None);
            lemma_block_sum_update(blocks, m, None);
            lemma_block_count_update(blocks, m);
            lemma_last_block(rest);
            assert((block_count(blocks) + 1) * (len - 1) == (block_count(rest) + 1) * (len - 1) + (
            len - 1)) by (nonlinear_arith)
                requires
                    block_count(rest) == block_count(blocks) - 1,
            ;
            let offset = lemma_gap(rest, o as int, len);
            assert forall|j: int| 0 <= j < blocks.len() implies ((
            #[trigger] blocks[j]) matches Some((p, q)) ==> p + q <= offset || offset + len
                <= p) by {
                if j != m {
                    assert(rest[j] == blocks[j]);
                }
            }
            offset
        }
    }
}

/// A leaf finds room as soon as there is enough of it to spare: the blocks of the
/// other leaves cut what is free into at most one piece more than there are such
/// blocks, and if the pieces together are larger than so many that are each too
/// small, one is large enough. With less to spare, the pieces may all be too small
/// though together they are not: blocks stay where they are.
pub proof fn spare_room_fits_every_run(composite: CompositeView, leaf: int, len: int)
    requires
        composite.wf(),
        0 <= leaf < composite.blocks.len(),
        0 < len,
        composite.allocator.spec_capacity() - block_sum(composite.blocks.update(leaf, None)) > (
        block_count(composite.blocks.update(leaf, None)) + 1) * (len - 1),
    ensures
        !composite.full_for(leaf, len),
{
    let others = composite.blocks.update(leaf, None);
    let capacity = composite.allocator.spec_capacity() as int;
    assert forall|j: int| 0 <= j < others.len() implies ((#[trigger] others[j]) matches Some((
        o,
        l,
    )) ==> l > 0 && o + l <= capacity) by {
        if j != leaf {
            assert(others[j] == composite.blocks[j]);
        }
    }
    assert forall|i: int, j: int|
        0 <= i < j < others.len() && (#[trigger] others[i]) is Some && (
        #[trigger] others[j]) is Some implies apart(others[i]->0, others[j]->0) by {
        assert(others[i] == composite.blocks[i]);
        assert(others[j] == composite.blocks[j]);
    }
    let offset = lemma_gap(others, capacity, len);
    assert forall|i: int| offset <= i < offset + len implies #[trigger] composite.open_at(
        leaf,
        i,
    ) by {
        if !composite.allocator.free_at(i) {
            assert(composite.covers(i));
            let j = choose|j: int|
                0 <= j < composite.blocks.len() && in_block(#[trigger] composite.blocks[j], i);
            if j != leaf {
                assert(others[j] == composite.blocks[j]);
            }
        }
    }
    assert(composite.room_at(leaf, offset, len));
}

/// What a leaf is shown by changes only by showing it anew: in every step the
/// levels that are shown stay, or one leaf is shown at another level.
pub open spec fn shows_on(before: Seq<Option<usize>>, after: Seq<Option<usize>>) -> bool {
    after == before || exists|leaf: int, lod: usize|
        0 <= leaf < before.len() && after == #[trigger] before.update(leaf, Some(lod))
}

/// A leaf that is shown never disappears: after any step it is still shown.
pub proof fn shown_leaves_stay_shown(
    before: Seq<Option<usize>>,
    after: Seq<Option<usize>>,
    i: int,
)
    requires
        shows_on(before, after),
        0 <= i < before.len(),
        before[i] is Some,
    ensures
        after.len() == before.len(),
        after[i] is Some,
{
}

/// The list of shown leaves holds each leaf that is shown, with its level, and
/// no other.
pub proof fn shown_lists_active_leaves(active: Seq<Option<usize>>, leaf: usize, lod: usize)
    requires
        active.len() <= usize::MAX,
    ensures
        shown(active).contains((leaf, lod)) <==> leaf < active.len() && active[leaf as int] == Some(
            lod,
        ),
    decreases active.len(),
{
    if active.len() > 0 {
        let before = active.drop_last();
        let last = (active.len() - 1) as usize;
        shown_lists_active_leaves(before, leaf, lod);
        let list = shown(active);
        if shown(before).contains((leaf, lod)) {
            let k = choose|k: int| 0 <= k < shown(before).len() && shown(before)[k] == (leaf, lod);
            assert(list[k] == (leaf, lod));
        }
        if list.contains((leaf, lod)) && leaf != last {
            let k = choose|k: int| 0 <= k < list.len() && list[k] == (leaf, lod);
            assert(shown(before)[k] == (leaf, lod));
        }
        if active.last() is Some {
            assert(list[list.len() - 1] == (last, active.last()->0));
            if leaf == last && list.contains((leaf, lod)) && active.last() != Some(lod) {
                let k = choose|k: int| 0 <= k < list.len() && list[k] == (leaf, lod);
                assert(shown(before)[k] == (leaf, lod));
            }
        }
    }
}

/// Whether every block is as long as the run that it shows.
pub open spec fn blocks_show_runs(runtime: RuntimeView, leaves: Seq<LeafView>) -> bool {
    runtime.composite matches Some(composite) && forall|i: int|
        0 <= i < runtime.active.len() ==> block_len(#[trigger] composite.blocks[i]) == cost(
            leaves[i],
            runtime.active[i],
        )
}

/// Blocks as long as the runs that they show hold as many splats together.
proof fn lemma_sums_agree(
    blocks: Seq<Option<(usize, usize)>>,
    leaves: Seq<LeafView>,
    active: Seq<Option<usize>>,
)
    requires
        blocks.len() == active.len(),
        forall|i: int|
            0 <= i < active.len() ==> block_len(#[trigger] blocks[i]) == cost(leaves[i], active[i]),
    ensures
        block_sum(blocks) == total_cost(leaves, active),
    decreases blocks.len(),
{
    if blocks.len() > 0 {
        let last = blocks.len() - 1;
        assert forall|i: int| 0 <= i < last implies block_len(#[trigger] blocks.drop_last()[i])
            == cost(leaves[i], active.drop_last()[i]) by {
            assert(blocks[i] == blocks.drop_last()[i]);
        }
        lemma_sums_agree(blocks.drop_last(), leaves, active.drop_last());
        assert(block_len(blocks[last]) == cost(leaves[last], active[last]));
    }
}

/// The splats in use in a composite cloud are those that are displayed, and never
/// more than the cloud holds.
pub proof fn used_splats_are_those_displayed(runtime: RuntimeView, leaves: Seq<LeafView>)
    requires
        runtime.wf(),
        runtime.composite is Some,
        blocks_show_runs(runtime, leaves),
    ensures
        runtime.composite->0.allocator.spec_used() == total_cost(leaves, runtime.active),
        used_of(runtime) matches Some(n) && n == total_cost(leaves, runtime.active),
        runtime.composite->0.allocator.spec_used()
            <= runtime.composite->0.allocator.spec_capacity(),
{
    let composite = runtime.composite->0;
    lemma_sums_agree(composite.blocks, leaves, runtime.active);
    used_within_capacity(composite.allocator);
}

/// Placing the run of a leaf keeps every block as long as the run that it shows.
pub proof fn placing_keeps_blocks_as_long_as_runs(
    before: RuntimeView,
    after: RuntimeView,
    leaves: Seq<LeafView>,
    leaf: int,
    lod: usize,
)
    requires
        before.wf(),
        blocks_show_runs(before, leaves),
        0 <= leaf < before.leaves(),
        after.composite is Some,
        before.composite->0.moved(after.composite->0, leaf, cost(leaves[leaf], Some(lod))),
        after.active == before.active.update(leaf, Some(lod)),
    ensures
        blocks_show_runs(after, leaves),
{
    let was = before.composite->0;
    let now = after.composite->0;
    assert forall|i: int| 0 <= i < after.active.len() implies block_len(#[trigger] now.blocks[i])
        == cost(leaves[i], after.active[i]) by {
        if i != leaf {
            assert(now.blocks[i] == was.blocks[i]);
        }
    }
}

/// The levels that are chosen exist: a leaf gets only levels that it has.
pub proof fn chosen_levels_exist(
    runtime: RuntimeView,
    scene: SceneView,
    settings: LodSettings,
    distances: Seq<FloatBits>,
    thresholds: Seq<FloatBits>,
    levels: Seq<Option<usize>>,
    i: int,
)
    requires
        are_chosen(runtime, scene, settings, distances, thresholds, levels),
        distances.len() == scene.leaves.len() <= usize::MAX,
        forall|j: int|
            0 <= j < scene.leaves.len() ==> (#[trigger] scene.leaves[j]).lods.len() <= usize::MAX,
        0 <= i < scene.leaves.len(),
    ensures
        levels[i] matches Some(l) ==> l < scene.leaves[i].lods.len()
            && scene.leaves[i].lods[l as int] is Some,
        levels[i] is None <==> forall|l: int|
            0 <= l < scene.leaves[i].lods.len() ==> (#[trigger] scene.leaves[i].lods[l]) is None,
{
    let wishes = all_wishes(scene, settings, distances, thresholds);
    assert forall|j: int| 0 <= j < scene.leaves.len() implies (#[trigger] wishes[j] matches Some(w)
        ==> w < scene.leaves[j].lods.len() && scene.leaves[j].lods[w as int] is Some) && (
    wishes[j] is None <==> forall|l: int|
        0 <= l < scene.leaves[j].lods.len() ==> (#[trigger] scene.leaves[j].lods[l]) is None) by {
        lemma_wish(scene, settings, distances, thresholds, j);
    }
    if runtime.composite is Some {
        let capacity = runtime.composite->0.allocator.spec_capacity() as int;
        let order = choose|order: Seq<usize>| #[trigger]
            nearest_first(distances, order) && levels == shared(
                scene.leaves,
                wishes,
                order,
                capacity,
            );
        sharing_starves_no_leaf(scene.leaves, wishes, order, capacity, order.len(), i);
    }
    assert(wishes[i] is None <==> forall|l: int|
        0 <= l < scene.leaves[i].lods.len() ==> (#[trigger] scene.leaves[i].lods[l]) is None);
}

/// A wish is for a level that the leaf has, and comes from every leaf that has
/// one.
proof fn lemma_wish(
    scene: SceneView,
    settings: LodSettings,
    distances: Seq<FloatBits>,
    thresholds: Seq<FloatBits>,
    i: int,
)
    requires
        0 <= i < scene.leaves.len(),
        scene.leaves[i].lods.len() <= usize::MAX,
    ensures
        ({
            let lods = scene.leaves[i].lods;
            let w = wish(scene, settings, distances, thresholds, i);
            &&& w matches Some(l) ==> l < lods.len() && lods[l as int] is Some
            &&& w is None <==> forall|l: int| 0 <= l < lods.len() ==> (#[trigger] lods[l]) is None
        }),
{
    let level = match settings.forced_lod {
        Some(level) => level as int,
        None => {
            if scene.lod_levels >= 1 {
                level_covers_its_band(distances[i], thresholds, scene.lod_levels as int);
            }
            band(distances[i], thresholds, scene.lod_levels as int)
        },
    };
    nearest_level_is_nearest(scene.leaves[i].lods, level);
}

/// No more runs are decoded at the same time than the settings say, in any frame
/// that starts within them.
pub proof fn decodes_never_exceed_the_setting(
    runtime: RuntimeView,
    units: Map<(u64, usize), UnitEntry>,
    scene_id: u64,
    scene: SceneView,
    settings: LodSettings,
)
    requires
        plan_of(runtime, units, scene_id, scene, settings).possible(),
        flying(runtime.pending) <= settings.max_decodes_in_flight,
    ensures
        flying(
            plan_of(runtime, units, scene_id, scene, settings).pending_after(
                scene.leaves.len() as int,
            ),
        ) <= settings.max_decodes_in_flight,
{
    decodes_stay_capped(plan_of(runtime, units, scene_id, scene, settings));
}

/// A run that ends takes one use off its unit and no other: where every run that
/// is being decoded is counted, every one still is.
pub proof fn ending_a_run_keeps_uses_counted(
    pending: Seq<Option<PendingSwap>>,
    units: Map<(u64, usize), UnitEntry>,
    scene_id: u64,
    leaf: int,
    file: usize,
)
    requires
        0 <= leaf < pending.len(),
        pending[leaf] is Some,
        units.contains_key((scene_id, file)),
        units[(scene_id, file)].refs >= flying_from(pending, file),
    ensures
        without_use(units, (scene_id, pending[leaf]->0.file))[(scene_id, file)].refs - flying_from(
            pending.update(leaf, None),
            file,
        ) == units[(scene_id, file)].refs - flying_from(pending, file),
{
    lemma_count_update(pending, |swap: PendingSwap| swap.file == file, leaf, None);
}

/// The host decodes what the scene says: every run that it is to decode is that of
/// its leaf at the level that the leaf should be shown at, row for row, out of the
/// unit that the cache has for the run's file; every unit that it is to load is
/// one that the cache does not have, from where the scene keeps it; and every run
/// that it is to give up is for a level that the leaf should not be shown at.
pub proof fn hosts_do_what_scenes_say(
    runtime: RuntimeView,
    units: Map<(u64, usize), UnitEntry>,
    scene_id: u64,
    scene: SceneView,
    settings: LodSettings,
    after: RuntimeView,
    kept: Map<(u64, usize), UnitEntry>,
    actions: Seq<StreamAction>,
    at: int,
)
    requires
        is_frame(
            plan_of(runtime, units, scene_id, scene, settings),
            runtime,
            after,
            kept,
            actions,
        ),
        runtime.wf(),
        scene.leaves.len() <= runtime.leaves(),
        0 <= at < actions.len(),
    ensures
        match actions[at] {
            StreamAction::Decode { leaf, lod, offset, count, unit } => {
                &&& leaf < scene.leaves.len()
                &&& runtime.desired[leaf as int] == Some(lod)
                &&& runtime.active[leaf as int] != Some(lod)
                &&& scene.leaves[leaf as int].lods[lod as int] matches Some(run) && run.offset
                    == offset && run.count == count && units.contains_key((scene_id, run.file))
                    && units[(scene_id, run.file)].state == UnitState::Ready(unit)
                    && after.pending[leaf as int] == Some(PendingSwap { lod, file: run.file })
            },
            StreamAction::Load { file, path } => {
                &&& path@ == scene.path_of(scene.filenames[file as int])
                &&& !units.contains_key((scene_id, file))
            },
            StreamAction::Cancel { leaf } => {
                &&& leaf < scene.leaves.len()
                &&& runtime.desired[leaf as int] is Some
                &&& runtime.pending[leaf as int] matches Some(swap) && Some(swap.lod)
                    != runtime.desired[leaf as int]
            },
        },
{
    let plan = plan_of(runtime, units, scene_id, scene, settings);
    let n = scene.leaves.len();
    assert(plan.actions(n)[at] == actions[at]@);
    decodes_are_runs_of_their_leaves(plan, n, at);
    loads_are_for_missing_units(plan, n, at);
    cancels_are_for_other_levels(plan, n, at);
}

/// Every leaf of the scene has its turn. Runs for other levels are given up; a leaf
/// with a run at the level that it should be shown at, which is neither shown nor
/// on its way, has the unit of the run loaded, or the run decoded if the unit is
/// there, unless as many runs are being decoded by then as the settings allow.
pub proof fn every_leaf_has_its_turn(
    runtime: RuntimeView,
    units: Map<(u64, usize), UnitEntry>,
    scene_id: u64,
    scene: SceneView,
    settings: LodSettings,
    after: RuntimeView,
    kept: Map<(u64, usize), UnitEntry>,
    actions: Seq<StreamAction>,
    i: int,
)
    requires
        is_frame(
            plan_of(runtime, units, scene_id, scene, settings),
            runtime,
            after,
            kept,
            actions,
        ),
        plan_of(runtime, units, scene_id, scene, settings).possible(),
        0 <= i < scene.leaves.len(),
        runtime.desired[i] is Some,
    ensures
        runtime.pending[i] matches Some(swap) && Some(swap.lod) != runtime.desired[i]
            ==> exists|at: int|
            0 <= at < actions.len() && (#[trigger] actions[at]@ == ActionView::Cancel { leaf: i }),
        runtime.active[i] != runtime.desired[i] && !(runtime.pending[i] matches Some(swap) && Some(
            swap.lod,
        ) == runtime.desired[i]) ==> match scene.leaves[i].lods[runtime.desired[i]->0 as int] {
            None => true,
            Some(run) => {
                &&& !units.contains_key((scene_id, run.file)) ==> exists|at: int|
                    0 <= at < actions.len() && (#[trigger] actions[at]@ == ActionView::Load {
                        file: run.file,
                        path: scene.path_of(scene.filenames[run.file as int]),
                    })
                &&& units.contains_key((scene_id, run.file)) ==> match units[(
                    scene_id,
                    run.file,
                )].state {
                    UnitState::Ready(unit) => {
                        ||| exists|at: int|
                            0 <= at < actions.len() && (#[trigger] actions[at]@
                                == ActionView::Decode {
                                leaf: i,
                                lod: runtime.desired[i]->0,
                                offset: run.offset,
                                count: run.count,
                                unit,
                            })
                        ||| flying(
                            plan_of(runtime, units, scene_id, scene, settings).pending_after(i + 1),
                        ) >= settings.max_decodes_in_flight
                    },
                    _ => true,
                }
            },
        },
{
    let plan = plan_of(runtime, units, scene_id, scene, settings);
    leaves_get_what_they_need(plan, scene.leaves.len(), i);
    lemma_actions_found(actions, ActionView::Cancel { leaf: i });
    if let Some(run) = scene.leaves[i].lods[runtime.desired[i]->0 as int] {
        lemma_actions_found(
            actions,
            ActionView::Load {
                file: run.file,
                path: scene.path_of(scene.filenames[run.file as int]),
            },
        );
        if let UnitState::Ready(unit) = units[(scene_id, run.file)].state {
            lemma_actions_found(
                actions,
                ActionView::Decode {
                    leaf: i,
                    lod: runtime.desired[i]->0,
                    offset: run.offset,
                    count: run.count,
                    unit,
                },
            );
        }
    }
}

/// An action that is among the views is among the actions.
proof fn lemma_actions_found(actions: Seq<StreamAction>, action: ActionView)
    ensures
        action_views(actions).contains(action) ==> exists|at: int|
            0 <= at < actions.len() && (#[trigger] actions[at]@ == action),
{
    if action_views(actions).contains(action) {
        let at = choose|at: int|
            0 <= at < action_views(actions).len() && action_views(actions)[at] == action;
        assert(actions[at]@ == action);
    }
}

/// A frame changes what is being decoded and nothing else of a scene's state; what
/// is being decoded after it for a leaf that should be shown at a level is that
/// level's run; what was being decoded for it already still is.
pub proof fn frames_change_what_is_decoded(
    runtime: RuntimeView,
    units: Map<(u64, usize), UnitEntry>,
    scene_id: u64,
    scene: SceneView,
    settings: LodSettings,
    after: RuntimeView,
    kept: Map<(u64, usize), UnitEntry>,
    actions: Seq<StreamAction>,
    i: int,
)
    requires
        is_frame(
            plan_of(runtime, units, scene_id, scene, settings),
            runtime,
            after,
            kept,
            actions,
        ),
        plan_of(runtime, units, scene_id, scene, settings).possible(),
        0 <= i < runtime.pending.len(),
    ensures
        after.desired == runtime.desired,
        after.active == runtime.active,
        after.entities == runtime.entities,
        after.last_eval == runtime.last_eval,
        after.last_params == runtime.last_params,
        after.composite == runtime.composite,
        after.pending.len() == runtime.pending.len(),
        i >= scene.leaves.len() ==> after.pending[i] == runtime.pending[i],
        i < scene.leaves.len() ==> {
            &&& after.pending[i] matches Some(swap) ==> (runtime.desired[i] is Some ==> Some(
                swap.lod,
            ) == runtime.desired[i])
            &&& (runtime.pending[i] matches Some(swap) && (runtime.desired[i] is None
                || runtime.desired[i] == Some(swap.lod))) ==> after.pending[i] == runtime.pending[i]
        },
{
    let plan = plan_of(runtime, units, scene_id, scene, settings);
    if i < scene.leaves.len() {
        leaves_on_their_way_are_wanted(plan, scene.leaves.len(), i);
    }
}

/// Actions come leaf by leaf, in order: no leaf has two runs decoded in a frame, and
/// a run is given up before another is begun.
pub proof fn actions_come_leaf_by_leaf(
    plan: Plan,
    before: RuntimeView,
    after: RuntimeView,
    kept: Map<(u64, usize), UnitEntry>,
    actions: Seq<StreamAction>,
    a: int,
    b: int,
)
    requires
        is_frame(plan, before, after, kept, actions),
        0 <= a < b < actions.len(),
    ensures
        match (actions[a], actions[b]) {
            (
                StreamAction::Decode { leaf, .. },
                StreamAction::Decode { leaf: other, .. },
            ) => leaf < other,
            (
                StreamAction::Decode { leaf, .. },
                StreamAction::Cancel { leaf: other },
            ) => leaf < other,
            (StreamAction::Cancel { leaf }, StreamAction::Cancel { leaf: other }) => leaf < other,
            (
                StreamAction::Cancel { leaf },
                StreamAction::Decode { leaf: other, .. },
            ) => leaf <= other,
            _ => true,
        },
{
    let n = plan.scene.leaves.len();
    assert(plan.actions(n)[a] == actions[a]@);
    assert(plan.actions(n)[b] == actions[b]@);
    leaves_have_their_turn_in_order(plan, n, a, b);
}

/// Runs that are being decoded are counted leaf by leaf, and those from a unit by
/// their unit.
pub proof fn decodes_are_counted_by_leaf(pending: Seq<Option<PendingSwap>>, file: usize)
    ensures
        flying(pending) == count_below(|i: int| pending[i] is Some, pending.len()),
        flying_from(pending, file) == count_below(
            |i: int| pending[i] matches Some(swap) && swap.file == file,
            pending.len(),
        ),
{
    lemma_counted_by_leaf(
        pending,
        pending.len(),
        |swap: PendingSwap| true,
        |i: int| pending[i] is Some,
    );
    lemma_counted_by_leaf(
        pending,
        pending.len(),
        |swap: PendingSwap| swap.file == file,
        |i: int| pending[i] matches Some(swap) && swap.file == file,
    );
    assert(pending.subrange(0, pending.len() as int) =~= pending);
}

/// Counting runs is counting the leaves that have one.
proof fn lemma_counted_by_leaf(
    pending: Seq<Option<PendingSwap>>,
    k: nat,
    p: spec_fn(PendingSwap) -> bool,
    q: spec_fn(int) -> bool,
)
    requires
        k <= pending.len(),
        forall|i: int|
            0 <= i < pending.len() ==> (#[trigger] q(i) <==> (pending[i] matches Some(swap) && p(
                swap,
            ))),
    ensures
        count_swaps(pending.subrange(0, k as int), p) == count_below(q, k),
    decreases k,
{
    if k > 0 {
        lemma_counted_by_leaf(pending, (k - 1) as nat, p, q);
        let part = pending.subrange(0, k as int);
        assert(part.drop_last() =~= pending.subrange(0, k - 1));
        assert(part.last() == pending[k - 1]);
        assert(q(k - 1) <==> (pending[k - 1] matches Some(swap) && p(swap)));
    }
}

/// The list of shown leaves is in the order of the leaves.
pub proof fn shown_leaves_are_in_order(active: Seq<Option<usize>>, a: int, b: int)
    requires
        active.len() <= usize::MAX,
        0 <= b < shown(active).len(),
    ensures
        shown(active)[b].0 < active.len(),
        0 <= a < b ==> shown(active)[a].0 < shown(active)[b].0,
    decreases active.len(),
{
    let before = shown(active.drop_last());
    if b < before.len() {
        shown_leaves_are_in_order(active.drop_last(), a, b);
        assert(shown(active)[b] == before[b]);
    } else if 0 <= a < b {
        shown_leaves_are_in_order(active.drop_last(), 0, a);
        assert(shown(active)[a] == before[a]);
    }
}

/// The end of a run is the end of that run only: its leaf is no longer on its way,
/// every other leaf still is where it was, its unit has one use less, and no other
/// unit changes. What was decoded arrives at the level that it was decoded for;
/// what could not be is reported with its leaf and the reason.
pub proof fn runs_end_alone(
    pending: Seq<Option<PendingSwap>>,
    units: Map<(u64, usize), UnitEntry>,
    scene_id: u64,
    leaf: int,
    result: Result<Vec<Gaussian3d>, String>,
    after: Seq<Option<PendingSwap>>,
    kept: Map<(u64, usize), UnitEntry>,
    outcome: SwapOutcome,
    other: int,
    key: (u64, usize),
)
    requires
        is_finished(pending, units, scene_id, leaf, result, after, kept, outcome),
        0 <= leaf < pending.len(),
        0 <= other < pending.len(),
    ensures
        after.len() == pending.len(),
        after[leaf] is None,
        other != leaf ==> after[other] == pending[other],
        kept.dom() == units.dom(),
        units.contains_key(key) ==> {
            let mine = pending[leaf] matches Some(swap) && key == (scene_id, swap.file);
            &&& kept[key].state == units[key].state
            &&& kept[key].cooldown == units[key].cooldown
            &&& kept[key].cooldown_reset == units[key].cooldown_reset
            &&& mine && units[key].refs > 0 ==> kept[key].refs == units[key].refs - 1
            &&& !mine || units[key].refs == 0 ==> kept[key].refs == units[key].refs
        },
        pending[leaf] is None ==> outcome is Idle,
        pending[leaf] matches Some(swap) ==> match result {
            Ok(splats) => outcome matches SwapOutcome::Arrived { lod, splats: arrived } && lod
                == swap.lod && arrived == splats,
            Err(reason) => outcome matches SwapOutcome::Failed { warning } && starts_with(
                warning@,
                "leaf "@ + decimal(leaf as nat),
            ) && ends_with(warning@, reason@),
        },
{
    if let Some(swap) = pending[leaf] {
        assert(kept.dom() =~= units.dom());
        if let Err(reason) = result {
            let text = decode_failure(leaf as nat, reason@);
            let head = "leaf "@ + decimal(leaf as nat);
            assert(text.subrange(0, head.len() as int) =~= head);
            assert(text.subrange(text.len() - reason@.len(), text.len() as int) =~= reason@);
        }
    }
}

/// Showing a leaf replaces what showed it: the one shown first is handed back when
/// the leaf is shown again, and no other leaf is touched.
pub proof fn showing_again_hands_back_the_first(
    start: RuntimeView,
    leaf: int,
    lod: usize,
    entity: u64,
    middle: RuntimeView,
    gone: Option<u64>,
    next_lod: usize,
    next: u64,
    end: RuntimeView,
    replaced: Option<u64>,
    other: int,
)
    requires
        start.wf(),
        0 <= leaf < start.leaves(),
        0 <= other < start.leaves(),
        is_shown(start, leaf, lod, entity, middle, gone),
        is_shown(middle, leaf, next_lod, next, end, replaced),
    ensures
        gone == start.entities[leaf],
        replaced == Some(entity),
        middle.active[leaf] == Some(lod),
        end.active[leaf] == Some(next_lod),
        end.entities[leaf] == Some(next),
        other != leaf ==> end.active[other] == start.active[other] && end.entities[other]
            == start.entities[other],
        end.desired == start.desired,
        end.pending == start.pending,
        end.composite == start.composite,
{
}

/// The splats of a cloud once steps are done one after the other.
pub open spec fn all_applied(steps: Seq<CompositeStep>, buffer: Seq<Gaussian3d>) -> Seq<Gaussian3d>
    decreases steps.len(),
{
    if steps.len() == 0 {
        buffer
    } else {
        applied(steps.last(), all_applied(steps.drop_last(), buffer))
    }
}

/// Placing a leaf puts its splats into the cloud and takes its former ones out of
/// sight: once the patches are done, its block holds the splats in order, what is
/// left of its former block is without extent and opacity, and every other row
/// of the cloud is as it was, the blocks of all other leaves among them.
pub proof fn placing_writes_one_leaf(
    before: RuntimeView,
    leaf: int,
    lod: usize,
    data: PlanarGaussian3d,
    after: RuntimeView,
    writes: Seq<CompositeWrite>,
    steps: Seq<CompositeStep>,
    buffer: Seq<Gaussian3d>,
    i: int,
    other: int,
)
    requires
        before.wf(),
        after.wf(),
        before.composite is Some,
        data.wf(),
        0 <= leaf < before.leaves(),
        0 <= other < before.leaves(),
        is_placed(before, leaf, lod, data, after, writes),
        !before.composite->0.full_for(leaf, data.spec_len() as int),
        steps.len() == writes.len(),
        buffer.len() == before.composite->0.allocator.spec_capacity(),
        forall|k: int|
            0 <= k < writes.len() ==> is_step(
                #[trigger] writes[k],
                before.composite->0.allocator.spec_capacity() as usize,
                steps[k],
            ),
        0 <= i < buffer.len(),
    ensures
        ({
            let was = before.composite->0;
            let now = after.composite->0;
            let rows = all_applied(steps, buffer);
            &&& now.asset == was.asset
            &&& rows.len() == buffer.len()
            &&& after.active[leaf] == Some(lod)
            &&& other != leaf ==> now.blocks[other] == was.blocks[other] && after.active[other]
                == before.active[other]
            &&& now.blocks[leaf] matches Some((offset, len)) && len == data.spec_len() && offset
                + len <= buffer.len() && {
                &&& offset <= i < offset + len ==> {
                    &&& rows[i].position_visibility == data.position_visibility@[i - offset]
                    &&& rows[i].spherical_harmonic == data.spherical_harmonic@[i - offset]
                    &&& rows[i].rotation == data.rotation@[i - offset]
                    &&& rows[i].scale_opacity == data.scale_opacity@[i - offset]
                }
                &&& !(offset <= i < offset + len) && in_block(was.blocks[leaf], i) ==> {
                    &&& rows[i].scale_opacity.log_scale is None
                    &&& rows[i].scale_opacity.opacity == 0
                }
                &&& !(offset <= i < offset + len) && !in_block(was.blocks[leaf], i) ==> rows[i]
                    == buffer[i]
                &&& other != leaf && in_block(was.blocks[other], i) ==> rows[i] == buffer[i]
            }
        }),
{
    let was = before.composite->0;
    let now = after.composite->0;
    let (offset, len) = now.blocks[leaf]->0;
    let capacity = was.allocator.spec_capacity();
    lemma_capacity_fits(was.allocator);
    let write = CompositeWrite::Block { asset: was.asset, offset, data };
    assert(offset + len <= capacity) by {
        let last = offset + len - 1;
        assert(was.open_at(leaf, last));
        if was.allocator.free_at(last) {
            free_lies_inside(was.allocator, last);
        } else {
            assert(was.blocks[leaf] is Some);
        }
    }
    if other != leaf && was.blocks[other] is Some {
        assert(now.blocks[other] == was.blocks[other]);
        if other < leaf {
            assert(apart(now.blocks[other]->0, now.blocks[leaf]->0));
        } else {
            assert(apart(now.blocks[leaf]->0, now.blocks[other]->0));
        }
        if was.blocks[leaf] is Some {
            if other < leaf {
                assert(apart(was.blocks[other]->0, was.blocks[leaf]->0));
            } else {
                assert(apart(was.blocks[leaf]->0, was.blocks[other]->0));
            }
        }
    }
    match was.blocks[leaf] {
        Some((old_offset, old_len)) => {
            let clear = CompositeWrite::Clear {
                asset: was.asset,
                offset: old_offset,
                len: old_len,
            };
            assert(writes[0] == clear && writes[1] == write);
            let first = steps.drop_last();
            assert(first.drop_last() =~= Seq::<CompositeStep>::empty());
            assert(all_applied(first.drop_last(), buffer) == buffer);
            let cleared = applied(steps[0], buffer);
            assert(all_applied(first, buffer) == cleared);
            assert(all_applied(steps, buffer) == applied(steps[1], cleared));
            clears_hide_their_rows(
                was.asset,
                old_offset,
                old_len,
                capacity as usize,
                steps[0],
                buffer,
                i,
            );
            blocks_land_where_they_belong(
                was.asset,
                offset,
                data,
                capacity as usize,
                steps[1],
                cleared,
                i,
            );
        },
        None => {
            assert(writes[0] == write);
            assert(steps.drop_last() =~= Seq::<CompositeStep>::empty());
            assert(all_applied(steps.drop_last(), buffer) == buffer);
            blocks_land_where_they_belong(
                was.asset,
                offset,
                data,
                capacity as usize,
                steps[0],
                buffer,
                i,
            );
        },
    }
}

/// A leaf is placed as low as it can be: any lower place runs into the block of
/// another leaf, or out of the cloud.
pub proof fn leaves_are_placed_lowest(
    before: RuntimeView,
    leaf: int,
    lod: usize,
    data: PlanarGaussian3d,
    after: RuntimeView,
    writes: Seq<CompositeWrite>,
    lower: int,
) -> (r: (int, int))
    requires
        before.wf(),
        before.composite is Some,
        0 <= leaf < before.leaves(),
        is_placed(before, leaf, lod, data, after, writes),
        !before.composite->0.full_for(leaf, data.spec_len() as int),
        lower < (after.composite->0.blocks[leaf]->0).0,
    ensures
        lower <= r.1 < lower + data.spec_len(),
        ({
            let was = before.composite->0;
            ||| !(0 <= r.1 < was.allocator.spec_capacity())
            ||| 0 <= r.0 < was.blocks.len() && r.0 != leaf && in_block(was.blocks[r.0], r.1)
        }),
{
    let was = before.composite->0;
    let len = data.spec_len() as int;
    assert(!was.room_at(leaf, lower, len));
    let i = choose|i: int| lower <= i < lower + len && !#[trigger] was.open_at(leaf, i);
    if 0 <= i < was.allocator.spec_capacity() {
        assert(was.covers(i));
        let j = choose|j: int| 0 <= j < was.blocks.len() && in_block(#[trigger] was.blocks[j], i);
        (j, i)
    } else {
        (leaf, i)
    }
}

/// Clouds are named by their leaf and then by its level.
pub proof fn clouds_are_named_by_leaf_and_level(leaf: nat, lod: nat)
    ensures
        starts_with(cloud_name(leaf, lod), "lod_leaf_"@ + decimal(leaf) + "_"@),
        ends_with(cloud_name(leaf, lod), "_lod"@ + decimal(lod)),
{
    reveal_strlit("_");
    reveal_strlit("_lod");
    let name = cloud_name(leaf, lod);
    let head = "lod_leaf_"@ + decimal(leaf) + "_"@;
    let tail = "_lod"@ + decimal(lod);
    assert(name.subrange(0, head.len() as int) =~= head);
    assert(name.subrange(name.len() - tail.len(), name.len() as int) =~= tail);
}

/// Clouds of different leaves, or of different levels of a leaf, have different
/// names.
pub proof fn clouds_keep_their_names_apart(leaf: nat, lod: nat, other: nat, level: nat)
    requires
        cloud_name(leaf, lod) == cloud_name(other, level),
    ensures
        leaf == other,
        lod == level,
{
    reveal_strlit("lod_leaf_");
    reveal_strlit("_lod");
    let a = cloud_name(leaf, lod);
    let b = cloud_name(other, level);
    let x = decimal(leaf);
    let y = decimal(other);
    decimals_come_back(leaf);
    decimals_come_back(other);
    assert(a[9 + x.len() as int] == '_');
    assert(b[9 + y.len() as int] == '_');
    if x.len() < y.len() {
        assert(b[9 + x.len() as int] == y[x.len() as int]);
    }
    if y.len() < x.len() {
        assert(a[9 + y.len() as int] == x[y.len() as int]);
    }
    assert(a.subrange(9, 9 + x.len() as int) =~= x);
    assert(b.subrange(9, 9 + y.len() as int) =~= y);
    decimals_tell_numbers_apart(leaf, other);
    assert(a.subrange(13 + x.len() as int, a.len() as int) =~= decimal(lod));
    assert(b.subrange(13 + y.len() as int, b.len() as int) =~= decimal(level));
    decimals_tell_numbers_apart(lod, level);
}

/// Levels that were chosen stay until they are due again: with the same settings,
/// numbers that they are, only a camera that went farther than the settings say
/// makes them due; with others they are due at once, and so they are if none were
/// chosen yet.
pub proof fn choices_stay_until_due(
    before: RuntimeView,
    scene: SceneView,
    settings: LodSettings,
    camera: [FloatBits; 3],
    distances: Seq<FloatBits>,
    thresholds: Seq<FloatBits>,
    after: RuntimeView,
    travelled: FloatBits,
    others: LodSettings,
)
    requires
        is_evaluated(before, scene, settings, camera, distances, thresholds, after),
    ensures
        after.last_eval == Some(camera),
        !settings.base_distance.nan() && !settings.multiplier.nan() ==> (stale_choice(
            after,
            Some(travelled),
            settings,
        ) <==> settings.update_distance.below(travelled)),
        others.forced_lod != settings.forced_lod || !others.base_distance.same_number(
            settings.base_distance,
        ) || !others.multiplier.same_number(settings.multiplier) ==> stale_choice(
            after,
            Some(travelled),
            others,
        ),
        stale_choice(after, None, settings),
        before.last_params is None ==> stale_choice(before, Some(travelled), settings),
{
}

/// Choosing levels changes what leaves should be shown at, and nothing of what is
/// shown or being decoded; leaves that the scene does not have keep theirs.
pub proof fn choosing_changes_wishes_only(
    before: RuntimeView,
    scene: SceneView,
    settings: LodSettings,
    camera: [FloatBits; 3],
    distances: Seq<FloatBits>,
    thresholds: Seq<FloatBits>,
    after: RuntimeView,
    i: int,
)
    requires
        is_evaluated(before, scene, settings, camera, distances, thresholds, after),
        scene.leaves.len() <= i < before.desired.len(),
    ensures
        after.active == before.active,
        after.entities == before.entities,
        after.pending == before.pending,
        after.composite == before.composite,
        after.desired[i] == before.desired[i],
{
    let n = scene.leaves.len() as int;
    let all = before.desired.len() as int;
    assert(after.desired.subrange(n, all)[i - n] == after.desired[i]);
    assert(before.desired.subrange(n, all)[i - n] == before.desired[i]);
}

/// A leaf wishes the level of its distance, or the forced one: that level if it has
/// it, else a coarser one with nothing in between, else a finer one with nothing
/// in between and nothing coarser. A leaf that has every level of the scene, and no
/// level forced, wishes the level in whose band its distance lies.
pub proof fn wishes_follow_distance(
    scene: SceneView,
    settings: LodSettings,
    distances: Seq<FloatBits>,
    thresholds: Seq<FloatBits>,
    i: int,
)
    requires
        0 <= i < scene.leaves.len(),
        scene.leaves[i].lods.len() <= usize::MAX,
        scene.lod_levels >= 1,
    ensures
        ({
            let lods = scene.leaves[i].lods;
            let wished = all_wishes(scene, settings, distances, thresholds)[i];
            &&& settings.forced_lod matches Some(level) ==> {
                &&& level < lods.len() && lods[level as int] is Some ==> wished == Some(level)
                &&& (wished matches Some(l) && l >= level) ==> forall|k: int|
                    level <= k < wished->0 ==> (#[trigger] lods[k]) is None
                &&& (wished matches Some(l) && l < level) ==> forall|k: int|
                    wished->0 < k < lods.len() ==> (#[trigger] lods[k]) is None
            }
            &&& settings.forced_lod is None && lods.len() == scene.lod_levels && (forall|k: int|
                0 <= k < lods.len() ==> (#[trigger] lods[k]) is Some) ==> {
                &&& wished matches Some(l) && l < scene.lod_levels && (l < scene.lod_levels - 1
                    ==> distances[i].below(thresholds[l as int])) && forall|k: int|
                    0 <= k < l ==> !distances[i].below(#[trigger] thresholds[k])
            }
            &&& settings.forced_lod is None ==> {
                let level = band(distances[i], thresholds, scene.lod_levels as int);
                &&& level < lods.len() && lods[level] is Some ==> wished == Some(level as usize)
                &&& (wished matches Some(l) && l >= level) ==> forall|k: int|
                    level <= k < wished->0 ==> (#[trigger] lods[k]) is None
                &&& (wished matches Some(l) && l < level) ==> forall|k: int|
                    wished->0 < k < lods.len() ==> (#[trigger] lods[k]) is None
            }
            &&& wished matches Some(l) ==> l < lods.len() && lods[l as int] is Some
            &&& wished is None <==> forall|k: int|
                0 <= k < lods.len() ==> (#[trigger] lods[k]) is None
        }),
{
    let lods = scene.leaves[i].lods;
    level_covers_its_band(distances[i], thresholds, scene.lod_levels as int);
    lemma_wish(scene, settings, distances, thresholds, i);
    let level = match settings.forced_lod {
        Some(level) => level as int,
        None => band(distances[i], thresholds, scene.lod_levels as int),
    };
    nearest_level_is_nearest(lods, level);
}

/// Where each leaf has a cloud of its own, every leaf gets what it wishes.
pub proof fn separate_clouds_grant_every_wish(
    before: RuntimeView,
    scene: SceneView,
    settings: LodSettings,
    camera: [FloatBits; 3],
    distances: Seq<FloatBits>,
    thresholds: Seq<FloatBits>,
    after: RuntimeView,
    i: int,
)
    requires
        is_evaluated(before, scene, settings, camera, distances, thresholds, after),
        before.composite is None,
        0 <= i < scene.leaves.len() <= before.desired.len(),
    ensures
        after.desired[i] == all_wishes(scene, settings, distances, thresholds)[i],
{
    assert(after.desired.subrange(0, scene.leaves.len() as int)[i] == after.desired[i]);
}

/// In a composite cloud the levels that are chosen fit into the cloud wherever the
/// coarsest ones do; every leaf gets what it wishes where all wishes fit and no
/// wish costs less than the leaf's coarsest level; and the nearest leaf gets what
/// it wishes where that fits beside the coarsest levels of the others.
pub proof fn composite_clouds_share_their_capacity(
    before: RuntimeView,
    scene: SceneView,
    settings: LodSettings,
    camera: [FloatBits; 3],
    distances: Seq<FloatBits>,
    thresholds: Seq<FloatBits>,
    after: RuntimeView,
    i: int,
)
    requires
        is_evaluated(before, scene, settings, camera, distances, thresholds, after),
        before.composite is Some,
        distances.len() == scene.leaves.len() <= usize::MAX,
        0 <= i < scene.leaves.len() <= before.desired.len(),
        forall|j: int|
            0 <= j < scene.leaves.len() ==> (#[trigger] scene.leaves[j]).lods.len() <= usize::MAX,
    ensures
        ({
            let wishes = all_wishes(scene, settings, distances, thresholds);
            let levels = after.desired.subrange(0, scene.leaves.len() as int);
            let capacity = before.composite->0.allocator.spec_capacity();
            &&& total_cost(scene.leaves, at_coarsest(scene.leaves, wishes)) <= capacity
                ==> total_cost(scene.leaves, levels) <= capacity
            &&& total_cost(scene.leaves, wishes) <= capacity && (forall|j: int|
                0 <= j < scene.leaves.len() ==> (#[trigger] wishes[j] is Some ==> cost(
                    scene.leaves[j],
                    coarsest(scene.leaves[j]),
                ) <= cost(scene.leaves[j], wishes[j]))) ==> after.desired[i] == wishes[i]
            &&& wishes[i] is Some && (forall|j: int|
                0 <= j < distances.len() && j != i ==> distances[i].below(#[trigger] distances[j]))
                && total_cost(
                scene.leaves,
                at_coarsest(scene.leaves, wishes).update(i, wishes[i]),
            ) <= capacity ==> after.desired[i] == wishes[i]
        }),
{
    let wishes = all_wishes(scene, settings, distances, thresholds);
    let levels = after.desired.subrange(0, scene.leaves.len() as int);
    let capacity = before.composite->0.allocator.spec_capacity() as int;
    assert(levels[i] == after.desired[i]);
    assert forall|j: int| 0 <= j < scene.leaves.len() implies (#[trigger] wishes[j] matches Some(w)
        ==> w < scene.leaves[j].lods.len() && scene.leaves[j].lods[w as int] is Some) by {
        lemma_wish(scene, settings, distances, thresholds, j);
    }
    assert(possible(scene.leaves, wishes));
    let order = choose|order: Seq<usize>| #[trigger]
        nearest_first(distances, order) && levels == shared(
            scene.leaves,
            wishes,
            order,
            capacity,
        );
    every_leaf_has_a_turn(distances, order, i as usize);
    assert(order.subrange(0, order.len() as int) =~= order);
    if total_cost(scene.leaves, at_coarsest(scene.leaves, wishes)) <= capacity {
        budget_is_kept(scene.leaves, wishes, order, capacity, order.len());
    }
    if total_cost(scene.leaves, wishes) <= capacity && (forall|j: int|
        0 <= j < scene.leaves.len() ==> (#[trigger] wishes[j] is Some ==> cost(
            scene.leaves[j],
            coarsest(scene.leaves[j]),
        ) <= cost(scene.leaves[j], wishes[j]))) {
        wishes_that_fit_come_true(scene.leaves, wishes, order, capacity, order.len());
        assert(granted(scene.leaves, wishes, order, capacity, order.len())[i] == wishes[i]);
    }
    let start = at_coarsest(scene.leaves, wishes);
    if wishes[i] is Some && (forall|j: int|
        0 <= j < distances.len() && j != i ==> distances[i].below(#[trigger] distances[j]))
        && total_cost(scene.leaves, start.update(i, wishes[i])) <= capacity {
        let turn = choose|k: int| 0 <= k < order.len() && order[k] == i as usize;
        if turn != 0 {
            assert(order[0] != i as usize) by {
                nearer_leaves_come_first(distances, order, 0, turn);
                if order[0] == i as usize {
                    lemma_one_turn(distances, order, 0, turn);
                }
            }
            assert(distances[i].below(distances[order[0] as int]));
            nearer_leaves_come_first(distances, order, turn, 0);
        }
        let room = capacity - (total_cost(scene.leaves, start) - cost(scene.leaves[i], start[i]));
        runs_cost_their_rows(scene.leaves, start, i, wishes[i]);
        grants_are_the_finest_that_fit(scene.leaves[i], wishes[i]->0, room);
        assert(granted(scene.leaves, wishes, order, capacity, 0) == start);
        assert(granted(scene.leaves, wishes, order, capacity, 1)[i] == wishes[i]);
        lemma_turn_is_last_word(distances, scene.leaves, wishes, order, capacity, order.len());
    }
}

/// No leaf has two turns.
proof fn lemma_one_turn(distances: Seq<FloatBits>, order: Seq<usize>, a: int, b: int)
    requires
        nearest_first(distances, order),
        0 <= a < b < order.len(),
    ensures
        order[a] != order[b],
{
    assert(turn_before(distances, order[a], order[b]));
}

/// What the first leaf is granted at its turn stays.
proof fn lemma_turn_is_last_word(
    distances: Seq<FloatBits>,
    leaves: Seq<LeafView>,
    wishes: Seq<Option<usize>>,
    order: Seq<usize>,
    capacity: int,
    k: nat,
)
    requires
        nearest_first(distances, order),
        wishes.len() == distances.len(),
        1 <= k <= order.len(),
    ensures
        granted(leaves, wishes, order, capacity, k).len() == wishes.len(),
        granted(leaves, wishes, order, capacity, k)[order[0] as int] == granted(
            leaves,
            wishes,
            order,
            capacity,
            1,
        )[order[0] as int],
    decreases k,
{
    if k > 1 {
        lemma_turn_is_last_word(distances, leaves, wishes, order, capacity, (k - 1) as nat);
        lemma_one_turn(distances, order, 0, k - 1);
    } else {
        assert(granted(leaves, wishes, order, capacity, 0).len() == wishes.len());
    }
}

/// A leaf for which there is no room keeps what it shows, and nothing is written.
pub proof fn leaves_without_room_keep_what_they_show(
    before: RuntimeView,
    leaf: int,
    lod: usize,
    data: PlanarGaussian3d,
    after: RuntimeView,
    writes: Seq<CompositeWrite>,
)
    requires
        is_placed(before, leaf, lod, data, after, writes),
        data.spec_len() == 0 || forall|offset: int|
            #![trigger before.composite->0.room_at(leaf, offset, data.spec_len() as int)]
            exists|i: int|
                offset <= i < offset + data.spec_len() && !#[trigger] before.composite->0.open_at(
                    leaf,
                    i,
                ),
    ensures
        after == before,
        writes.len() == 0,
{
    let composite = before.composite->0;
    let len = data.spec_len() as int;
    if len > 0 {
        assert forall|offset: int| !#[trigger] composite.room_at(leaf, offset, len) by {
            if composite.room_at(leaf, offset, len) {
                let i = choose|i: int|
                    offset <= i < offset + len && !#[trigger] composite.open_at(leaf, i);
                assert(!composite.open_at(leaf, i));
            }
        }
    }
}

/// A scene can be managed with a state of at least as many leaves, as long as desired
/// levels exist, runs lie in units that the scene lists, and there are not more
/// uses than can be counted.
pub proof fn sound_scenes_can_be_managed(
    runtime: RuntimeView,
    units: Map<(u64, usize), UnitEntry>,
    scene_id: u64,
    scene: SceneView,
    settings: LodSettings,
)
    requires
        runtime.wf(),
        scene.leaves.len() <= runtime.leaves(),
        forall|i: int|
            0 <= i < scene.leaves.len() ==> (#[trigger] runtime.desired[i] matches Some(lod) ==> lod
                < scene.leaves[i].lods.len()),
        forall|i: int, lod: int|
            0 <= i < scene.leaves.len() && 0 <= lod < scene.leaves[i].lods.len() ==> (
            #[trigger] scene.leaves[i].lods[lod] matches Some(run) ==> run.file
                < scene.filenames.len()),
        forall|key: (u64, usize)| #[trigger]
            units.contains_key(key) ==> units[key].refs + scene.leaves.len() <= usize::MAX,
    ensures
        plan_of(runtime, units, scene_id, scene, settings).possible(),
{
    let plan = plan_of(runtime, units, scene_id, scene, settings);
    assert forall|i: int|
        0 <= i < plan.scene.leaves.len() && #[trigger] plan.wanting(i) implies plan.desired[i]->0
        < plan.scene.leaves[i].lods.len() by {
        assert(runtime.desired[i] is Some);
    }
    assert forall|i: int|
        0 <= i < plan.scene.leaves.len() && #[trigger] plan.asks(i) && !plan.units.contains_key(
            plan.key(i),
        ) implies plan.run(i)->0.file < plan.scene.filenames.len() by {
        assert(runtime.desired[i] is Some);
        assert(scene.leaves[i].lods[runtime.desired[i]->0 as int] is Some);
    }
}

/// A scene starts with nothing: no leaf is desired, shown or on its way, levels are due
/// at once whatever the settings, and a composite cloud has all its splats for
/// whichever leaf comes first.
pub proof fn scenes_start_with_nothing(
    runtime: RuntimeView,
    leaves: nat,
    settings: LodSettings,
    travelled: Option<FloatBits>,
    asset: u64,
    capacity: int,
    i: int,
    len: int,
)
    requires
        runtime.wf(),
        nothing_shown(runtime, leaves),
        runtime.composite matches Some(composite) ==> is_empty_cloud(
            composite,
            leaves,
            asset,
            capacity,
        ),
        0 <= i < leaves,
        0 < len <= capacity,
    ensures
        runtime.leaves() == leaves,
        runtime.desired[i] is None,
        runtime.active[i] is None,
        runtime.entities[i] is None,
        runtime.pending[i] is None,
        flying(runtime.pending) == 0,
        stale_choice(runtime, travelled, settings),
        runtime.composite is Some ==> {
            &&& cloud_of(runtime) == Some(asset)
            &&& used_of(runtime) == Some(0nat)
            &&& runtime.composite->0.blocks[i] is None
            &&& !runtime.composite->0.full_for(i, len)
        },
{
    decodes_are_counted_by_leaf(runtime.pending, 0);
    crate::stream::allocator::counting_goes_index_by_index(
        |j: int| runtime.pending[j] is Some,
        runtime.pending.len(),
    );
    if runtime.composite is Some {
        let composite = runtime.composite->0;
        assert forall|j: int| 0 <= j < 0 + len implies #[trigger] composite.open_at(i, j) by {
            assert(composite.allocator.free_at(j) || composite.covers(j));
            if composite.covers(j) {
                let k = choose|k: int|
                    0 <= k < composite.blocks.len() && in_block(#[trigger] composite.blocks[k], j);
            }
        }
        assert(composite.room_at(i, 0, len));
    }
}

/// The cloud of a scene stays the one that it started with, and so does its capacity,
/// whatever is placed in it.
pub proof fn scenes_keep_their_cloud(
    before: RuntimeView,
    leaf: int,
    lod: usize,
    data: PlanarGaussian3d,
    after: RuntimeView,
    writes: Seq<CompositeWrite>,
    k: int,
)
    requires
        before.composite is Some,
        is_placed(before, leaf, lod, data, after, writes),
        0 <= k < writes.len(),
    ensures
        cloud_of(after) == cloud_of(before),
        cloud_of(after) == Some(
            match writes[k] {
                CompositeWrite::Block { asset, .. } => asset,
                CompositeWrite::Clear { asset, .. } => asset,
            },
        ),
        after.composite->0.allocator.spec_capacity()
            == before.composite->0.allocator.spec_capacity(),
{
}

/// A frame keeps the units of other scenes as they are, and forgets none. A unit that
/// it adds is one that a leaf of the scene has a run in; it is loading, and has as
/// many frames as the settings say.
pub proof fn frames_add_units_of_their_scene(
    runtime: RuntimeView,
    units: Map<(u64, usize), UnitEntry>,
    scene_id: u64,
    scene: SceneView,
    settings: LodSettings,
    after: RuntimeView,
    kept: Map<(u64, usize), UnitEntry>,
    actions: Seq<StreamAction>,
    key: (u64, usize),
)
    requires
        is_frame(
            plan_of(runtime, units, scene_id, scene, settings),
            runtime,
            after,
            kept,
            actions,
        ),
    ensures
        units.contains_key(key) ==> {
            &&& kept.contains_key(key)
            &&& kept[key].state == units[key].state
            &&& kept[key].cooldown_reset == units[key].cooldown_reset
            &&& key.0 != scene_id ==> kept[key] == units[key]
        },
        kept.contains_key(key) && !units.contains_key(key) ==> {
            &&& key.0 == scene_id
            &&& kept[key].state is Loading
            &&& kept[key].refs == 0
            &&& kept[key].cooldown == settings.cooldown_frames
            &&& kept[key].cooldown_reset == settings.cooldown_frames
            &&& exists|i: int|
                0 <= i < scene.leaves.len() && (#[trigger] runtime.desired[i]) is Some && (
                scene.leaves[i].lods[runtime.desired[i]->0 as int] matches Some(run) && run.file
                    == key.1)
        },
{
    let plan = plan_of(runtime, units, scene_id, scene, settings);
    let n = scene.leaves.len();
    frames_keep_units(plan, n, key);
    if units.contains_key(key) && key.0 != scene_id {
        lemma_other_scenes_stay(plan, key, n);
    }
    if kept.contains_key(key) && !units.contains_key(key) {
        let i = choose|i: int|
            0 <= i < n && (#[trigger] plan.desired[i]) is Some && plan.active[i] != plan.desired[i]
                && (plan.scene.leaves[i].lods[plan.desired[i]->0 as int] matches Some(run)
                && run.file == key.1);
        assert(runtime.desired[i] is Some);
    }
}

/// Units of other scenes have no turn.
proof fn lemma_other_scenes_stay(plan: Plan, key: (u64, usize), k: nat)
    requires
        plan.units.contains_key(key),
        key.0 != plan.scene_id,
    ensures
        plan.refs_after(key, k) == plan.units[key].refs,
        !plan.touched(key, k as int),
    decreases k,
{
    if k > 0 {
        lemma_other_scenes_stay(plan, key, (k - 1) as nat);
    }
}

/// The uses of a unit grow and shrink in a frame with the runs that are being decoded
/// from it, whoever else uses it.
pub proof fn frames_count_their_runs(
    runtime: RuntimeView,
    units: Map<(u64, usize), UnitEntry>,
    scene_id: u64,
    scene: SceneView,
    settings: LodSettings,
    after: RuntimeView,
    kept: Map<(u64, usize), UnitEntry>,
    actions: Seq<StreamAction>,
    file: usize,
)
    requires
        is_frame(
            plan_of(runtime, units, scene_id, scene, settings),
            runtime,
            after,
            kept,
            actions,
        ),
        plan_of(runtime, units, scene_id, scene, settings).possible(),
        units.contains_key((scene_id, file)),
        units[(scene_id, file)].refs >= flying_from(runtime.pending, file),
    ensures
        kept[(scene_id, file)].refs - flying_from(after.pending, file) == units[(
            scene_id,
            file,
        )].refs - flying_from(runtime.pending, file),
{
    let plan = plan_of(runtime, units, scene_id, scene, settings);
    let n = scene.leaves.len();
    let key = (scene_id, file);
    uses_follow_decodes(plan, file, n);
    lemma_refs_bound(plan, key, n);
    assert(plan.known(key, n as int));
}

} // verus!
