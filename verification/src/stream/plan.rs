//! What a frame does for the leaves that are not shown as desired.
//!
//! Leaves have their turn in order. A run that is being decoded for a level that
//! is no longer desired is given up. A leaf that is neither shown at its desired
//! level nor on the way to it asks for the unit of its run; once the unit is
//! decoded, and as long as there is a free place, the run is decoded.

use std::sync::Arc;

use vstd::prelude::*;

use crate::io::lod::{LodInterval, SceneView};
use crate::stream::allocator::count_below;
use crate::stream::runtime::{flying, flying_from, lemma_count_update, PendingSwap};
use crate::stream::units::{
    new_entry, room_for, used, without_use, DecodedUnit, UnitEntry, UnitState,
};

verus! {

/// What the host is to do for a scene.
#[derive(Debug)]
pub enum StreamAction {
    /// give up the run that is being decoded for a leaf
    Cancel { leaf: usize },
    /// load the unit whose `meta.json` is at `path`
    Load { file: usize, path: String },
    /// decode a run of rows of a unit for a leaf
    Decode { leaf: usize, lod: usize, offset: usize, count: usize, unit: Arc<DecodedUnit> },
}

/// An action, its path as a sequence.
pub enum ActionView {
    Cancel { leaf: int },
    Load { file: usize, path: Seq<char> },
    Decode { leaf: int, lod: usize, offset: usize, count: usize, unit: Arc<DecodedUnit> },
}

impl View for StreamAction {
    type V = ActionView;

    open spec fn view(&self) -> ActionView {
        match self {
            StreamAction::Cancel { leaf } => ActionView::Cancel { leaf: *leaf as int },
            StreamAction::Load { file, path } => ActionView::Load { file: *file, path: path@ },
            StreamAction::Decode { leaf, lod, offset, count, unit } => ActionView::Decode {
                leaf: *leaf as int,
                lod: *lod,
                offset: *offset,
                count: *count,
                unit: *unit,
            },
        }
    }
}

/// The views of a list of actions.
pub open spec fn action_views(actions: Seq<StreamAction>) -> Seq<ActionView> {
    actions.map_values(|action: StreamAction| action@)
}

/// A frame, as it begins.
pub struct Plan {
    pub scene: SceneView,
    pub scene_id: u64,
    pub desired: Seq<Option<usize>>,
    pub active: Seq<Option<usize>>,
    pub pending: Seq<Option<PendingSwap>>,
    pub units: Map<(u64, usize), UnitEntry>,
    /// cooldown of units that begin to load
    pub cooldown: u32,
    /// free places for decoding
    pub places: int,
}

impl Plan {
    /// What is being decoded for leaf `i` is no longer desired.
    pub open spec fn stale(self, i: int) -> bool {
        match (self.desired[i], self.pending[i]) {
            (Some(lod), Some(swap)) => swap.lod != lod,
            _ => false,
        }
    }

    /// Leaf `i` is neither shown at its desired level nor on the way to it.
    pub open spec fn wanting(self, i: int) -> bool {
        match self.desired[i] {
            Some(lod) => self.active[i] != Some(lod) && match self.pending[i] {
                Some(swap) => swap.lod != lod,
                None => true,
            },
            None => false,
        }
    }

    /// The run of leaf `i` at its desired level.
    pub open spec fn run(self, i: int) -> Option<LodInterval> {
        self.scene.leaves[i].lods[self.desired[i]->0 as int]
    }

    /// Leaf `i` asks for the unit of its run.
    pub open spec fn asks(self, i: int) -> bool {
        self.wanting(i) && self.run(i) is Some
    }

    /// The unit of the run of leaf `i`.
    pub open spec fn key(self, i: int) -> (u64, usize) {
        (self.scene_id, self.run(i)->0.file)
    }

    /// The unit of the run of leaf `i` is decoded.
    pub open spec fn ready(self, i: int) -> bool {
        self.units.contains_key(self.key(i)) && self.units[self.key(i)].state is Ready
    }

    /// How many of the first `k` leaves give up a run.
    pub open spec fn given_up(self, k: nat) -> nat {
        count_below(|i: int| self.stale(i), k)
    }

    /// How many of the first `k` leaves begin a run.
    pub open spec fn begun(self, k: nat) -> nat
        decreases k,
    {
        if k == 0 {
            0
        } else {
            let before = self.begun((k - 1) as nat);
            before + if self.asks(k - 1) && self.ready(k - 1) && self.places + self.given_up(k)
                - before > 0 {
                1nat
            } else {
                0nat
            }
        }
    }

    /// Leaf `i` begins a run: its unit is decoded, and there is a place that is
    /// free from the start or was given up by a leaf no later than `i`, and not
    /// taken by an earlier leaf.
    pub open spec fn begins(self, i: int) -> bool {
        &&& self.asks(i)
        &&& self.ready(i)
        &&& self.places + self.given_up((i + 1) as nat) - self.begun(i as nat) > 0
    }

    /// Unit `key` is there at the turn of leaf `k`: it was from the start, or an
    /// earlier leaf asked for it.
    pub open spec fn known(self, key: (u64, usize), k: int) -> bool {
        self.units.contains_key(key) || exists|i: int|
            0 <= i < k && #[trigger] self.asks(i) && self.key(i) == key
    }

    /// Leaf `i` is the first to ask for a unit that is not there.
    pub open spec fn loads(self, i: int) -> bool {
        self.asks(i) && !self.known(self.key(i), i)
    }

    /// What is being decoded for leaf `i` after its turn.
    pub open spec fn swap_after(self, i: int) -> Option<PendingSwap> {
        if self.begins(i) {
            Some(PendingSwap { lod: self.desired[i]->0, file: self.run(i)->0.file })
        } else if self.stale(i) {
            None
        } else {
            self.pending[i]
        }
    }

    /// What is being decoded once the first `k` leaves had their turn.
    pub open spec fn pending_after(self, k: int) -> Seq<Option<PendingSwap>> {
        Seq::new(
            self.pending.len(),
            |i: int|
                if i < k {
                    self.swap_after(i)
                } else {
                    self.pending[i]
                },
        )
    }

    /// Uses of unit `key` once the first `k` leaves had their turn.
    pub open spec fn refs_after(self, key: (u64, usize), k: nat) -> int
        decreases k,
    {
        if k == 0 {
            if self.units.contains_key(key) {
                self.units[key].refs as int
            } else {
                0
            }
        } else {
            let i = k - 1;
            let before = self.refs_after(key, i as nat);
            let less = if self.stale(i) && (self.scene_id, self.pending[i]->0.file) == key && before
                > 0 {
                before - 1
            } else {
                before
            };
            if self.begins(i) && self.key(i) == key {
                less + 1
            } else {
                less
            }
        }
    }

    /// One of the first `k` leaves begins a run from unit `key`.
    pub open spec fn touched(self, key: (u64, usize), k: int) -> bool {
        exists|i: int| 0 <= i < k && #[trigger] self.begins(i) && self.key(i) == key
    }

    /// Unit `key` once the first `k` leaves had their turn.
    pub open spec fn entry_after(self, key: (u64, usize), k: int) -> UnitEntry {
        if self.units.contains_key(key) {
            let entry = self.units[key];
            UnitEntry {
                refs: self.refs_after(key, k as nat) as usize,
                cooldown: if self.touched(key, k) {
                    entry.cooldown_reset
                } else {
                    entry.cooldown
                },
                ..entry
            }
        } else {
            new_entry(self.cooldown)
        }
    }

    /// The units once the first `k` leaves had their turn.
    pub open spec fn units_after(self, k: int) -> Map<(u64, usize), UnitEntry> {
        Map::new(
            |key: (u64, usize)| self.known(key, k),
            |key: (u64, usize)| self.entry_after(key, k),
        )
    }

    /// What the host is to do for leaf `i`, in this order.
    pub open spec fn actions_of(self, i: int) -> Seq<ActionView> {
        let cancel = if self.stale(i) {
            seq![ActionView::Cancel { leaf: i }]
        } else {
            Seq::empty()
        };
        let load = if self.loads(i) {
            let file = self.run(i)->0.file;
            seq![
                ActionView::Load {
                    file,
                    path: self.scene.path_of(self.scene.filenames[file as int]),
                },
            ]
        } else {
            Seq::empty()
        };
        let decode = if self.begins(i) {
            let run = self.run(i)->0;
            seq![
                ActionView::Decode {
                    leaf: i,
                    lod: self.desired[i]->0,
                    offset: run.offset,
                    count: run.count,
                    unit: self.units[self.key(i)].state->Ready_0,
                },
            ]
        } else {
            Seq::empty()
        };
        cancel + load + decode
    }

    /// What the host is to do for the first `k` leaves.
    pub open spec fn actions(self, k: nat) -> Seq<ActionView>
        decreases k,
    {
        if k == 0 {
            Seq::empty()
        } else {
            self.actions((k - 1) as nat) + self.actions_of(k - 1)
        }
    }

    /// Every leaf can have its turn: a leaf that is wanting has an entry for its
    /// desired level, and a unit that has to be loaded has a path.
    pub open spec fn possible(self) -> bool {
        &&& self.scene.leaves.len() <= self.desired.len()
        &&& self.active.len() == self.desired.len()
        &&& self.pending.len() == self.desired.len()
        &&& forall|i: int|
            0 <= i < self.scene.leaves.len() && #[trigger] self.wanting(i) ==> self.desired[i]->0
                < self.scene.leaves[i].lods.len()
        &&& forall|i: int|
            0 <= i < self.scene.leaves.len() && #[trigger] self.asks(i)
                && !self.units.contains_key(self.key(i)) ==> self.run(i)->0.file
                < self.scene.filenames.len()
        &&& room_for(self.units, self.scene.leaves.len() as int)
    }
}

/// Uses grow by at most one with every turn.
pub proof fn lemma_refs_bound(plan: Plan, key: (u64, usize), k: nat)
    ensures
        0 <= plan.refs_after(key, k) <= plan.refs_after(key, 0) + k,
    decreases k,
{
    if k > 0 {
        lemma_refs_bound(plan, key, (k - 1) as nat);
    }
}

/// A unit that was not there from the start is not used.
proof fn lemma_new_units_idle(plan: Plan, key: (u64, usize), k: nat)
    requires
        !plan.units.contains_key(key),
    ensures
        plan.refs_after(key, k) == 0,
    decreases k,
{
    if k > 0 {
        lemma_new_units_idle(plan, key, (k - 1) as nat);
    }
}

/// The units after a turn, from those before it: a use less for a run that is
/// given up, an entry for a unit that is asked for, a use more for a run that is
/// begun.
pub proof fn lemma_units_step(plan: Plan, i: int)
    requires
        0 <= i < plan.scene.leaves.len(),
        plan.possible(),
    ensures
        ({
            let released = if plan.stale(i) {
                without_use(plan.units_after(i), (plan.scene_id, plan.pending[i]->0.file))
            } else {
                plan.units_after(i)
            };
            let asked = if plan.loads(i) {
                released.insert(plan.key(i), new_entry(plan.cooldown))
            } else {
                released
            };
            let after = if plan.begins(i) {
                asked.insert(plan.key(i), used(asked[plan.key(i)]))
            } else {
                asked
            };
            &&& plan.units_after(i + 1) == after
            &&& released.contains_key(plan.key(i)) <==> plan.known(plan.key(i), i)
            &&& plan.begins(i) ==> asked.contains_key(plan.key(i)) && asked[plan.key(i)].refs
                < usize::MAX
        }),
{
    let before = plan.units_after(i);
    let released = if plan.stale(i) {
        without_use(before, (plan.scene_id, plan.pending[i]->0.file))
    } else {
        before
    };
    let asked = if plan.loads(i) {
        released.insert(plan.key(i), new_entry(plan.cooldown))
    } else {
        released
    };
    let after = if plan.begins(i) {
        asked.insert(plan.key(i), used(asked[plan.key(i)]))
    } else {
        asked
    };
    let now = plan.units_after(i + 1);
    assert forall|key: (u64, usize)| plan.known(key, i + 1) <==> plan.known(key, i) || (plan.asks(
        i,
    ) && plan.key(i) == key) by {
        if plan.known(key, i + 1) && !plan.units.contains_key(key) {
            let j = choose|j: int| 0 <= j < i + 1 && #[trigger] plan.asks(j) && plan.key(j) == key;
            if j < i {
                assert(plan.asks(j));
            }
        }
        if plan.known(key, i) && !plan.units.contains_key(key) {
            let j = choose|j: int| 0 <= j < i && #[trigger] plan.asks(j) && plan.key(j) == key;
            assert(plan.asks(j));
        }
    }
    assert forall|key: (u64, usize)| #[trigger] plan.known(key, i) implies if plan.stale(i) && key
        == (plan.scene_id, plan.pending[i]->0.file) {
        plan.refs_after(key, (i + 1) as nat) == (if plan.refs_after(key, i as nat) > 0 {
            plan.refs_after(key, i as nat) - 1
        } else {
            0
        }) + (if plan.begins(i) && plan.key(i) == key {
            1int
        } else {
            0int
        })
    } else {
        plan.refs_after(key, (i + 1) as nat) == plan.refs_after(key, i as nat) + (if plan.begins(i)
            && plan.key(i) == key {
            1int
        } else {
            0int
        })
    } by {
        lemma_refs_bound(plan, key, i as nat);
    }
    assert forall|key: (u64, usize)| plan.touched(key, i + 1) <==> plan.touched(key, i) || (
    plan.begins(i) && plan.key(i) == key) by {
        if plan.touched(key, i + 1) {
            let j = choose|j: int| 0 <= j < i + 1 && #[trigger] plan.begins(j) && plan.key(j) == key;
            if j < i {
                assert(plan.begins(j));
            }
        }
        if plan.touched(key, i) {
            let j = choose|j: int| 0 <= j < i && #[trigger] plan.begins(j) && plan.key(j) == key;
            assert(plan.begins(j));
        }
    }
    if plan.begins(i) {
        let key = plan.key(i);
        lemma_refs_bound(plan, key, i as nat);
        assert(plan.units.contains_key(key));
    }
    assert forall|key: (u64, usize)| now.contains_key(key) implies #[trigger] now[key]
        == after[key] by {
        lemma_refs_bound(plan, key, i as nat);
        lemma_refs_bound(plan, key, (i + 1) as nat);
        if plan.units.contains_key(key) {
            assert(plan.known(key, i));
        } else {
            lemma_new_units_idle(plan, key, i as nat);
        }
    }
    assert(now =~= after);
}

/// What is being decoded changes for one leaf at its turn.
proof fn lemma_pending_step(plan: Plan, i: int)
    requires
        0 <= i < plan.pending.len(),
    ensures
        plan.pending_after(i + 1) == plan.pending_after(i).update(i, plan.swap_after(i)),
        plan.pending_after(i)[i] == plan.pending[i],
{
    assert(plan.pending_after(i + 1) =~= plan.pending_after(i).update(i, plan.swap_after(i)));
}

/// Runs that are being decoded: those from the start, less those given up, and
/// those begun, of which there are no more than places.
proof fn lemma_flying_after(plan: Plan, k: nat)
    requires
        plan.possible(),
        plan.places >= 0,
        k <= plan.scene.leaves.len(),
    ensures
        flying(plan.pending_after(k as int)) + plan.given_up(k) == flying(plan.pending)
            + plan.begun(k),
        plan.begun(k) <= plan.places + plan.given_up(k),
    decreases k,
{
    if k == 0 {
        assert(plan.pending_after(0) =~= plan.pending);
    } else {
        let i = k - 1;
        lemma_flying_after(plan, i as nat);
        lemma_pending_step(plan, i);
        lemma_count_update(
            plan.pending_after(i),
            |swap: PendingSwap| true,
            i,
            plan.swap_after(i),
        );
    }
}

/// A frame never begins more than there are places: with `places` free places at
/// the start, no more runs are being decoded at the end than at the start and
/// these.
pub proof fn decodes_stay_capped(plan: Plan)
    requires
        plan.possible(),
        plan.places >= 0,
    ensures
        flying(plan.pending_after(plan.scene.leaves.len() as int)) <= flying(plan.pending)
            + plan.places,
{
    lemma_flying_after(plan, plan.scene.leaves.len());
}

/// The uses of a unit follow the runs that are being decoded from it: where every
/// run that is being decoded is counted at the start, the count changes in a
/// frame by exactly the runs that are begun and given up, whoever else uses the
/// unit. So a unit is never let go while it is read.
pub proof fn uses_follow_decodes(plan: Plan, file: usize, k: nat)
    requires
        plan.possible(),
        k <= plan.scene.leaves.len(),
        plan.refs_after((plan.scene_id, file), 0) >= flying_from(plan.pending, file),
    ensures
        plan.refs_after((plan.scene_id, file), k) - flying_from(
            plan.pending_after(k as int),
            file,
        ) == plan.refs_after((plan.scene_id, file), 0) - flying_from(plan.pending, file),
    decreases k,
{
    if k == 0 {
        assert(plan.pending_after(0) =~= plan.pending);
    } else {
        let i = k - 1;
        uses_follow_decodes(plan, file, i as nat);
        lemma_pending_step(plan, i);
        let p = |swap: PendingSwap| swap.file == file;
        lemma_count_update(plan.pending_after(i), p, i, plan.swap_after(i));
        if plan.stale(i) && plan.pending[i]->0.file == file {
            lemma_count_update(plan.pending_after(i), p, i, None);
        }
    }
}

/// Every unit that has to be loaded is loaded once: no two leaves begin to load
/// the same unit, and none that is there.
pub proof fn units_load_once(plan: Plan, i: int, j: int)
    requires
        0 <= i < j,
        plan.loads(i),
        plan.loads(j),
    ensures
        plan.key(i) != plan.key(j),
        !plan.units.contains_key(plan.key(i)),
{
    if plan.key(i) == plan.key(j) {
        assert(plan.asks(i));
        assert(plan.known(plan.key(j), j));
    }
}

/// A leaf that is shown as desired, with nothing being decoded for it, is left
/// alone.
pub proof fn settled_leaves_are_left_alone(plan: Plan, i: int)
    requires
        plan.pending[i] is None,
        plan.desired[i] is None || plan.active[i] == plan.desired[i],
    ensures
        plan.swap_after(i) is None,
        plan.actions_of(i) == Seq::<ActionView>::empty(),
{
    assert(plan.actions_of(i) =~= Seq::<ActionView>::empty());
}

/// The actions of a leaf stand together, after those of the leaves before it.
proof fn lemma_actions_of_one(plan: Plan, i: int, k: nat)
    requires
        0 <= i < k,
    ensures
        plan.actions(i as nat).len() + plan.actions_of(i).len() <= plan.actions(k).len(),
        forall|j: int|
            0 <= j < plan.actions_of(i).len() ==> plan.actions(k)[plan.actions(i as nat).len() + j]
                == #[trigger] plan.actions_of(i)[j],
    decreases k,
{
    if i < k - 1 {
        lemma_actions_of_one(plan, i, (k - 1) as nat);
    }
}

/// Every action is that of a leaf: which leaf, and the place among its actions.
proof fn lemma_action_has_leaf(plan: Plan, k: nat, at: int) -> (r: (int, int))
    requires
        0 <= at < plan.actions(k).len(),
    ensures
        0 <= r.0 < k,
        0 <= r.1 < plan.actions_of(r.0).len(),
        at == plan.actions(r.0 as nat).len() + r.1,
        plan.actions(k)[at] == plan.actions_of(r.0)[r.1],
    decreases k,
{
    let before = plan.actions((k - 1) as nat);
    if at < before.len() {
        lemma_action_has_leaf(plan, (k - 1) as nat, at)
    } else {
        (k - 1, at - before.len())
    }
}

/// Rows are decoded as the scene has them: whatever is decoded for a leaf is its
/// run at the level that it should be shown at, from the first row of the run and
/// as many rows as the run has, out of the unit that the run lies in. The leaf is
/// not shown at that level and not on its way to it, and from then on it is on
/// its way.
pub proof fn decodes_are_runs_of_their_leaves(plan: Plan, k: nat, at: int)
    requires
        0 <= at < plan.actions(k).len(),
    ensures
        plan.actions(k)[at] matches ActionView::Decode { leaf, lod, offset, count, unit } ==> {
            &&& 0 <= leaf < k
            &&& plan.desired[leaf] == Some(lod)
            &&& plan.active[leaf] != Some(lod)
            &&& plan.pending[leaf] matches Some(swap) ==> swap.lod != lod
            &&& plan.scene.leaves[leaf].lods[lod as int] matches Some(run) && run.offset == offset
                && run.count == count && plan.units.contains_key((plan.scene_id, run.file))
                && plan.units[(plan.scene_id, run.file)].state == UnitState::Ready(unit) && (leaf
                < plan.pending.len() ==> plan.pending_after(k as int)[leaf] == Some(
                PendingSwap { lod, file: run.file },
            ))
        },
{
    let (i, j) = lemma_action_has_leaf(plan, k, at);
    assert(plan.actions_of(i)[j] is Decode ==> plan.begins(i));
}

/// Leaves do not read each other's rows: where the runs of two leaves share no row
/// of a unit, neither do the rows that are decoded for them.
pub proof fn decoded_rows_are_apart(plan: Plan, k: nat, a: int, b: int)
    requires
        0 <= a < plan.actions(k).len(),
        0 <= b < plan.actions(k).len(),
        plan.actions(k)[a] is Decode,
        plan.actions(k)[b] is Decode,
        ({
            let one = plan.actions(k)[a]->Decode_leaf;
            let other = plan.actions(k)[b]->Decode_leaf;
            let x = plan.scene.leaves[one].lods[plan.desired[one]->0 as int]->0;
            let y = plan.scene.leaves[other].lods[plan.desired[other]->0 as int]->0;
            x.offset + x.count <= y.offset || y.offset + y.count <= x.offset
        }),
    ensures
        plan.actions(k)[a]->Decode_offset + plan.actions(k)[a]->Decode_count
            <= plan.actions(k)[b]->Decode_offset || plan.actions(k)[b]->Decode_offset
            + plan.actions(k)[b]->Decode_count <= plan.actions(k)[a]->Decode_offset,
{
    decodes_are_runs_of_their_leaves(plan, k, a);
    decodes_are_runs_of_their_leaves(plan, k, b);
}

/// Units are loaded from their own path, and only if they are not there and a leaf
/// needs them for the level that it should be shown at.
pub proof fn loads_are_for_missing_units(plan: Plan, k: nat, at: int) -> (leaf: int)
    requires
        0 <= at < plan.actions(k).len(),
    ensures
        plan.actions(k)[at] matches ActionView::Load { file, path } ==> {
            &&& path == plan.scene.path_of(plan.scene.filenames[file as int])
            &&& !plan.units.contains_key((plan.scene_id, file))
            &&& 0 <= leaf < k
            &&& plan.desired[leaf] is Some
            &&& plan.active[leaf] != plan.desired[leaf]
            &&& plan.scene.leaves[leaf].lods[plan.desired[leaf]->0 as int] matches Some(run)
                && run.file == file
        },
{
    let (i, j) = lemma_action_has_leaf(plan, k, at);
    assert(plan.actions_of(i)[j] is Load ==> plan.loads(i));
    i
}

/// A run is given up only if its leaf should be shown at another level by now.
pub proof fn cancels_are_for_other_levels(plan: Plan, k: nat, at: int)
    requires
        0 <= at < plan.actions(k).len(),
    ensures
        plan.actions(k)[at] matches ActionView::Cancel { leaf } ==> {
            &&& 0 <= leaf < k
            &&& plan.desired[leaf] matches Some(lod) && plan.pending[leaf] matches Some(swap)
                && swap.lod != lod
        },
{
    let (i, j) = lemma_action_has_leaf(plan, k, at);
    assert(plan.actions_of(i)[j] is Cancel ==> plan.stale(i));
}

/// Leaves have their turn in order, and none twice: of two actions for leaves, the
/// later is for a later leaf, or for the same leaf the end of one run before the
/// beginning of another.
pub proof fn leaves_have_their_turn_in_order(plan: Plan, k: nat, a: int, b: int)
    requires
        0 <= a < b < plan.actions(k).len(),
    ensures
        match (plan.actions(k)[a], plan.actions(k)[b]) {
            (
                ActionView::Decode { leaf, .. },
                ActionView::Decode { leaf: other, .. },
            ) => leaf < other,
            (
                ActionView::Decode { leaf, .. },
                ActionView::Cancel { leaf: other },
            ) => leaf < other,
            (ActionView::Cancel { leaf }, ActionView::Cancel { leaf: other }) => leaf < other,
            (
                ActionView::Cancel { leaf },
                ActionView::Decode { leaf: other, .. },
            ) => leaf <= other,
            _ => true,
        },
{
    let (i, x) = lemma_action_has_leaf(plan, k, a);
    let (j, y) = lemma_action_has_leaf(plan, k, b);
    if j < i {
        lemma_actions_of_one(plan, j, i as nat);
    }
}

/// Nothing that is to be done is left out. A run for another level is given up. A
/// leaf that should be shown at a level, is neither shown at it nor on its way to
/// it and has a run there, has the unit of the run loaded if it is not there; if
/// the unit is decoded, the run is, or every place is taken.
pub proof fn leaves_get_what_they_need(plan: Plan, k: nat, i: int)
    requires
        plan.possible(),
        plan.places >= 0,
        0 <= i < k <= plan.scene.leaves.len(),
        plan.desired[i] is Some,
    ensures
        plan.pending[i] matches Some(swap) && swap.lod != plan.desired[i]->0 ==> plan.actions(
            k,
        ).contains(ActionView::Cancel { leaf: i }),
        plan.active[i] != plan.desired[i] && !(plan.pending[i] matches Some(swap) && swap.lod
            == plan.desired[i]->0) ==> match plan.scene.leaves[i].lods[plan.desired[i]->0 as int] {
            None => true,
            Some(run) => {
                let key = (plan.scene_id, run.file);
                &&& !plan.units.contains_key(key) ==> plan.actions(k).contains(
                    ActionView::Load {
                        file: run.file,
                        path: plan.scene.path_of(plan.scene.filenames[run.file as int]),
                    },
                )
                &&& plan.units.contains_key(key) ==> match plan.units[key].state {
                    UnitState::Ready(unit) => plan.actions(k).contains(
                        ActionView::Decode {
                            leaf: i,
                            lod: plan.desired[i]->0,
                            offset: run.offset,
                            count: run.count,
                            unit,
                        },
                    ) || flying(plan.pending_after(i + 1)) >= flying(plan.pending) + plan.places,
                    _ => true,
                }
            },
        },
{
    lemma_actions_of_one(plan, i, k);
    let mine = plan.actions_of(i);
    let start = plan.actions(i as nat).len() as int;
    if plan.stale(i) {
        assert(mine[0] == ActionView::Cancel { leaf: i });
        assert(plan.actions(k)[start] == ActionView::Cancel { leaf: i });
    }
    if plan.asks(i) {
        let run = plan.run(i)->0;
        let key = plan.key(i);
        if !plan.units.contains_key(key) {
            let j = lemma_first_to_ask(plan, i);
            lemma_actions_of_one(plan, j, k);
            let load = ActionView::Load {
                file: run.file,
                path: plan.scene.path_of(plan.scene.filenames[run.file as int]),
            };
            let at: int = if plan.stale(j) {
                1
            } else {
                0
            };
            assert(plan.actions_of(j)[at] == load);
            assert(plan.actions(k)[plan.actions(j as nat).len() + at] == load);
        } else if plan.units[key].state is Ready {
            if plan.begins(i) {
                let last = mine.len() - 1;
                assert(mine[last] is Decode);
                assert(plan.actions(k)[start + last] == mine[last]);
            } else {
                lemma_flying_after(plan, (i + 1) as nat);
            }
        }
    }
}

/// Of the leaves that ask for a unit that is not there, one is the first.
proof fn lemma_first_to_ask(plan: Plan, i: int) -> (j: int)
    requires
        0 <= i,
        plan.asks(i),
        !plan.units.contains_key(plan.key(i)),
    ensures
        0 <= j <= i,
        plan.loads(j),
        plan.key(j) == plan.key(i),
    decreases i,
{
    if plan.loads(i) {
        i
    } else {
        let j = choose|j: int|
            0 <= j < i && #[trigger] plan.asks(j) && plan.key(j) == plan.key(i);
        lemma_first_to_ask(plan, j)
    }
}

/// A leaf is on its way to a level after a frame exactly if it was before and that
/// is still the level that it should be shown at, or it has none; or if its run is
/// decoded from now on.
pub proof fn leaves_on_their_way_are_wanted(plan: Plan, k: nat, i: int)
    requires
        plan.possible(),
        0 <= i < k <= plan.scene.leaves.len(),
    ensures
        plan.pending_after(k as int).len() == plan.pending.len(),
        plan.pending_after(k as int)[i] matches Some(swap) ==> (plan.desired[i] matches Some(lod)
            ==> swap.lod == lod),
        plan.pending[i] matches Some(swap) && (plan.desired[i] is None || plan.desired[i] == Some(
            swap.lod,
        )) ==> plan.pending_after(k as int)[i] == plan.pending[i],
        forall|j: int|
            k <= j < plan.pending.len() ==> plan.pending_after(k as int)[j] == #[trigger]
                plan.pending[j],
{
}

/// A frame neither forgets a unit nor changes what is known of it beside its uses
/// and its age. New in the cache are the units that leaves need and that were not
/// there: they are loading, unused, and start with the settings' age.
pub proof fn frames_keep_units(plan: Plan, k: nat, key: (u64, usize))
    ensures
        plan.units.contains_key(key) ==> {
            &&& plan.units_after(k as int).contains_key(key)
            &&& plan.units_after(k as int)[key].state == plan.units[key].state
            &&& plan.units_after(k as int)[key].cooldown_reset == plan.units[key].cooldown_reset
            &&& plan.units_after(k as int)[key].cooldown == plan.units[key].cooldown
                || plan.units_after(k as int)[key].cooldown == plan.units[key].cooldown_reset
        },
        !plan.units.contains_key(key) && plan.units_after(k as int).contains_key(key) ==> {
            let entry = plan.units_after(k as int)[key];
            &&& key.0 == plan.scene_id
            &&& entry.state is Loading
            &&& entry.refs == 0
            &&& entry.cooldown == plan.cooldown
            &&& entry.cooldown_reset == plan.cooldown
            &&& exists|i: int|
                0 <= i < k && (#[trigger] plan.desired[i]) is Some && plan.active[i]
                    != plan.desired[i] && (plan.scene.leaves[i].lods[plan.desired[i]->0 as int] matches Some(
                    run,
                ) && run.file == key.1)
        },
{
    if !plan.units.contains_key(key) && plan.units_after(k as int).contains_key(key) {
        let i = choose|i: int| 0 <= i < k && #[trigger] plan.asks(i) && plan.key(i) == key;
        assert(plan.desired[i] is Some);
    }
}

/// A unit that a run is begun from is as young as a new one.
pub proof fn decoding_keeps_units_young(plan: Plan, k: nat, at: int)
    requires
        0 <= at < plan.actions(k).len(),
    ensures
        plan.actions(k)[at] matches ActionView::Decode { leaf, lod, .. } ==> {
            let key = (plan.scene_id, plan.scene.leaves[leaf].lods[lod as int]->0.file);
            plan.units_after(k as int)[key].cooldown == plan.units[key].cooldown_reset
        },
{
    let (i, j) = lemma_action_has_leaf(plan, k, at);
    if plan.actions(k)[at] is Decode {
        assert(plan.begins(i));
        assert(plan.touched(plan.key(i), k as int));
        assert(plan.known(plan.key(i), k as int));
    }
}

} // verus!
