//! Sharing a budget of splats among the leaves of a scene.
//!
//! Every leaf that can be shown is granted its coarsest level first, so that no
//! leaf is a hole. Then, nearest leaf first, each is moved to the level that it
//! wishes, or to the next coarser one that the rest of the budget pays for.

use vstd::prelude::*;

use crate::float_bits::{places_sort_numbers, FloatBits};
use crate::io::lod::{
    last_before, leaf_views, lemma_last_before, LeafView, LodInterval, LodLeaf,
};

verus! {

/// Splats of a run; none without one.
pub open spec fn run_cost(run: Option<LodInterval>) -> int {
    match run {
        Some(run) => run.count as int,
        None => 0,
    }
}

/// Splats that a leaf shows at a level; none without a level.
pub open spec fn cost(leaf: LeafView, level: Option<usize>) -> int {
    match level {
        Some(l) => run_cost(leaf.lods[l as int]),
        None => 0,
    }
}

/// Splats that the first leaves show together.
pub open spec fn total_cost(leaves: Seq<LeafView>, levels: Seq<Option<usize>>) -> int
    decreases levels.len(),
{
    if levels.len() == 0 {
        0
    } else {
        total_cost(leaves, levels.drop_last()) + cost(leaves[levels.len() - 1], levels.last())
    }
}

/// The coarsest level that a leaf has.
pub open spec fn coarsest(leaf: LeafView) -> Option<usize> {
    match last_before(leaf.lods, leaf.lods.len() as int) {
        Some(l) => Some(l as usize),
        None => None,
    }
}

/// The first level from `level` on whose run is there and has at most `room`
/// splats.
pub open spec fn first_affordable(
    lods: Seq<Option<LodInterval>>,
    level: int,
    room: int,
) -> Option<int>
    decreases lods.len() - level,
{
    if level >= lods.len() {
        None
    } else if lods[level] is Some && run_cost(lods[level]) <= room {
        Some(level)
    } else {
        first_affordable(lods, level + 1, room)
    }
}

/// What is granted to a leaf that wishes `wish` with `room` splats to spend: the
/// first level from there on that they pay for, or else the coarsest.
pub open spec fn grant(leaf: LeafView, wish: usize, room: int) -> Option<usize> {
    match first_affordable(leaf.lods, wish as int, room) {
        Some(l) => Some(l as usize),
        None => coarsest(leaf),
    }
}

/// Every leaf with a wish at its coarsest level.
pub open spec fn at_coarsest(leaves: Seq<LeafView>, wishes: Seq<Option<usize>>) -> Seq<
    Option<usize>,
> {
    Seq::new(
        wishes.len(),
        |i: int|
            if wishes[i] is Some {
                coarsest(leaves[i])
            } else {
                None
            },
    )
}

/// What is granted once the first `k` leaves of `order` had their turn.
pub open spec fn granted(
    leaves: Seq<LeafView>,
    wishes: Seq<Option<usize>>,
    order: Seq<usize>,
    capacity: int,
    k: nat,
) -> Seq<Option<usize>>
    decreases k,
{
    if k == 0 {
        at_coarsest(leaves, wishes)
    } else {
        let before = granted(leaves, wishes, order, capacity, (k - 1) as nat);
        let i = order[k - 1] as int;
        match wishes[i] {
            Some(wish) => before.update(
                i,
                grant(
                    leaves[i],
                    wish,
                    capacity - (total_cost(leaves, before) - cost(leaves[i], before[i])),
                ),
            ),
            None => before,
        }
    }
}

/// What is granted once every leaf of `order` had its turn.
pub open spec fn shared(
    leaves: Seq<LeafView>,
    wishes: Seq<Option<usize>>,
    order: Seq<usize>,
    capacity: int,
) -> Seq<Option<usize>> {
    granted(leaves, wishes, order, capacity, order.len())
}

/// Whether leaf `a` has its turn before leaf `b`: it is nearer, or as near and
/// earlier.
pub open spec fn turn_before(distances: Seq<FloatBits>, a: usize, b: usize) -> bool {
    distances[a as int].place() < distances[b as int].place() || (distances[a as int].place()
        == distances[b as int].place() && a < b)
}

/// Whether `order` lists every leaf once, nearest first.
pub open spec fn nearest_first(distances: Seq<FloatBits>, order: Seq<usize>) -> bool {
    &&& order.len() == distances.len()
    &&& forall|k: int| 0 <= k < order.len() ==> (#[trigger] order[k]) < distances.len()
    &&& forall|j: int, k: int|
        0 <= j < k < order.len() ==> turn_before(
            distances,
            #[trigger] order[j],
            #[trigger] order[k],
        )
}

/// Lists the leaves, nearest first.
pub fn order_by_distance(distances: &Vec<FloatBits>) -> (r: Vec<usize>)
    ensures
        nearest_first(distances@, r@),
{
    let mut order: Vec<usize> = Vec::new();
    let mut i: usize = 0;
    while i < distances.len()
        invariant
            i <= distances@.len(),
            order@.len() == i,
            forall|k: int| 0 <= k < i ==> (#[trigger] order@[k]) < i,
            forall|j: int, k: int|
                0 <= j < k < i ==> turn_before(
                    distances@,
                    #[trigger] order@[j],
                    #[trigger] order@[k],
                ),
        decreases distances@.len() - i,
    {
        let place = distances[i].place_of();
        let mut at: usize = i;
        while at > 0 && distances[order[at - 1]].place_of() > place
            invariant
                at <= i < distances@.len(),
                order@.len() == i,
                place == distances@[i as int].place(),
                forall|k: int| 0 <= k < i ==> (#[trigger] order@[k]) < i,
                forall|k: int|
                    at <= k < i ==> distances@[(#[trigger] order@[k]) as int].place() > place,
            decreases at,
        {
            at = at - 1;
        }
        let ghost before = order@;
        order.insert(at, i);
        proof {
            assert forall|k: int| 0 <= k < i + 1 implies (#[trigger] order@[k]) < i + 1 by {
                if k < at {
                    assert(order@[k] == before[k]);
                } else if k > at {
                    assert(order@[k] == before[k - 1]);
                }
            }
            assert forall|j: int, k: int| 0 <= j < k < i + 1 implies turn_before(
                distances@,
                #[trigger] order@[j],
                #[trigger] order@[k],
            ) by {
                let was_j = if j < at {
                    j
                } else {
                    j - 1
                };
                let was_k = if k < at {
                    k
                } else {
                    k - 1
                };
                if j != at {
                    assert(order@[j] == before[was_j]);
                }
                if k != at {
                    assert(order@[k] == before[was_k]);
                }
                if j != at && k != at {
                    assert(turn_before(distances@, before[was_j], before[was_k]));
                } else if k == at {
                    if j < at - 1 {
                        assert(turn_before(distances@, before[j], before[at - 1]));
                    }
                }
            }
        }
        i = i + 1;
    }
    order
}

/// Splats that a leaf shows at a level.
fn cost_of(leaf: &LodLeaf, level: Option<usize>) -> (r: usize)
    requires
        level matches Some(l) ==> l < leaf.lods@.len(),
    ensures
        r == cost(leaf@, level),
{
    match level {
        Some(l) => match &leaf.lods[l] {
            Some(run) => run.count,
            None => 0,
        },
        None => 0,
    }
}

/// The coarsest level that a leaf has.
pub fn coarsest_of(leaf: &LodLeaf) -> (r: Option<usize>)
    ensures
        r == coarsest(leaf@),
        r matches Some(l) ==> l < leaf.lods@.len() && leaf.lods@[l as int] is Some,
{
    let mut level: usize = leaf.lods.len();
    while level > 0
        invariant
            level <= leaf.lods@.len(),
            last_before(leaf.lods@, leaf.lods@.len() as int) == last_before(
                leaf.lods@,
                level as int,
            ),
        decreases level,
    {
        if leaf.lods[level - 1].is_some() {
            return Some(level - 1);
        }
        level = level - 1;
    }
    None
}

/// What is granted to a leaf that wishes `wish` with `room` splats to spend;
/// nothing is left to spend when `room` is `None`.
fn grant_of(leaf: &LodLeaf, wish: usize, room: Option<usize>) -> (r: Option<usize>)
    ensures
        match room {
            Some(room) => r == grant(leaf@, wish, room as int),
            None => r == grant(leaf@, wish, -1),
        },
        r matches Some(l) ==> l < leaf.lods@.len(),
{
    let ghost most: int = match room {
        Some(room) => room as int,
        None => -1,
    };
    let mut level: usize = wish;
    while level < leaf.lods.len()
        invariant
            most == (match room {
                Some(room) => room as int,
                None => -1int,
            }),
            wish <= level,
            first_affordable(leaf.lods@, wish as int, most) == first_affordable(
                leaf.lods@,
                level as int,
                most,
            ),
        decreases leaf.lods@.len() - level,
    {
        if let Some(run) = &leaf.lods[level] {
            if let Some(room) = room {
                if run.count <= room {
                    return Some(level);
                }
            }
        }
        level = level + 1;
    }
    coarsest_of(leaf)
}

/// Sums are bounded by the number of leaves.
proof fn lemma_total_bound(leaves: Seq<LeafView>, levels: Seq<Option<usize>>)
    ensures
        0 <= total_cost(leaves, levels) <= levels.len() * usize::MAX,
    decreases levels.len(),
{
    if levels.len() > 0 {
        lemma_total_bound(leaves, levels.drop_last());
        assert(levels.len() * usize::MAX == (levels.len() - 1) * usize::MAX + usize::MAX)
            by (nonlinear_arith);
    }
}

/// Changing one level changes the sum by the difference.
proof fn lemma_total_update(
    leaves: Seq<LeafView>,
    levels: Seq<Option<usize>>,
    i: int,
    level: Option<usize>,
)
    requires
        0 <= i < levels.len(),
    ensures
        total_cost(leaves, levels.update(i, level)) == total_cost(leaves, levels) - cost(
            leaves[i],
            levels[i],
        ) + cost(leaves[i], level),
    decreases levels.len(),
{
    let after = levels.update(i, level);
    if i == levels.len() - 1 {
        assert(after.drop_last() =~= levels.drop_last());
    } else {
        assert(after.drop_last() =~= levels.drop_last().update(i, level));
        lemma_total_update(leaves, levels.drop_last(), i, level);
    }
}

/// The sum holds each of its parts.
proof fn lemma_part_of_total(leaves: Seq<LeafView>, levels: Seq<Option<usize>>, i: int)
    requires
        0 <= i < levels.len(),
    ensures
        0 <= cost(leaves[i], levels[i]) <= total_cost(leaves, levels),
    decreases levels.len(),
{
    lemma_total_bound(leaves, levels.drop_last());
    if i < levels.len() - 1 {
        lemma_part_of_total(leaves, levels.drop_last(), i);
    }
}

/// A sum over all leaves fits in 128 bits.
proof fn lemma_total_fits(n: nat)
    requires
        n <= usize::MAX,
    ensures
        n * usize::MAX <= u128::MAX,
{
    assert(n * usize::MAX <= u64::MAX * u64::MAX) by (nonlinear_arith)
        requires
            n <= usize::MAX,
            usize::MAX <= u64::MAX,
    ;
}

/// Shares a budget of `capacity` splats among the leaves, in the order of their
/// turns.
pub fn share_budget(
    leaves: &Vec<LodLeaf>,
    wishes: &Vec<Option<usize>>,
    order: &Vec<usize>,
    capacity: usize,
) -> (r: Vec<Option<usize>>)
    requires
        wishes@.len() == leaves@.len(),
        forall|k: int| 0 <= k < order@.len() ==> (#[trigger] order@[k]) < leaves@.len(),
    ensures
        r@ == shared(leaf_views(leaves@), wishes@, order@, capacity as int),
        r@.len() == leaves@.len(),
{
    let ghost views = leaf_views(leaves@);
    let n = leaves.len();
    let mut levels: Vec<Option<usize>> = Vec::new();
    let mut total: u128 = 0;
    proof {
        lemma_total_fits(n as nat);
    }
    while levels.len() < n
        invariant
            n == leaves@.len() == wishes@.len(),
            n * usize::MAX <= u128::MAX,
            views == leaf_views(leaves@),
            levels@.len() <= n,
            levels@ =~= at_coarsest(views, wishes@).subrange(0, levels@.len() as int),
            forall|i: int|
                0 <= i < levels@.len() ==> (#[trigger] levels@[i] matches Some(l) ==> l
                    < leaves@[i].lods@.len()),
            total == total_cost(views, levels@),
        decreases n - levels@.len(),
    {
        let i = levels.len();
        let level = if wishes[i].is_some() {
            coarsest_of(&leaves[i])
        } else {
            None
        };
        let more = cost_of(&leaves[i], level);
        let ghost longer = levels@.push(level);
        proof {
            assert(longer.drop_last() =~= levels@);
            lemma_total_bound(views, longer);
            assert(longer.len() * usize::MAX <= n * usize::MAX) by (nonlinear_arith)
                requires
                    longer.len() <= n,
            ;
        }
        levels.push(level);
        total = total + more as u128;
    }
    assert(levels@ =~= at_coarsest(views, wishes@));
    let mut k: usize = 0;
    while k < order.len()
        invariant
            n == leaves@.len() == wishes@.len() == levels@.len(),
            n * usize::MAX <= u128::MAX,
            views == leaf_views(leaves@),
            k <= order@.len(),
            forall|j: int| 0 <= j < order@.len() ==> (#[trigger] order@[j]) < leaves@.len(),
            levels@ == granted(views, wishes@, order@, capacity as int, k as nat),
            forall|i: int|
                0 <= i < levels@.len() ==> (#[trigger] levels@[i] matches Some(l) ==> l
                    < leaves@[i].lods@.len()),
            total == total_cost(views, levels@),
        decreases order@.len() - k,
    {
        let i = order[k];
        if let Some(wish) = wishes[i] {
            let own = cost_of(&leaves[i], levels[i]);
            proof {
                lemma_part_of_total(views, levels@, i as int);
            }
            let others: u128 = total - own as u128;
            let room: Option<usize> = if others <= capacity as u128 {
                Some((capacity as u128 - others) as usize)
            } else {
                None
            };
            let level = grant_of(&leaves[i], wish, room);
            proof {
                if room is None {
                    lemma_no_room(views[i as int].lods, wish as int, capacity - others, -1);
                }
                lemma_total_update(views, levels@, i as int, level);
                lemma_total_bound(views, levels@.update(i as int, level));
            }
            total = others + cost_of(&leaves[i], level) as u128;
            levels.set(i, level);
        }
        k = k + 1;
    }
    levels
}

/// Below zero it does not matter how much is missing.
proof fn lemma_no_room(lods: Seq<Option<LodInterval>>, level: int, a: int, b: int)
    requires
        a < 0,
        b < 0,
        0 <= level,
    ensures
        first_affordable(lods, level, a) is None,
        first_affordable(lods, level, b) is None,
    decreases lods.len() - level,
{
    if level < lods.len() {
        lemma_no_room(lods, level + 1, a, b);
    }
}

/// Every wish is for a level that its leaf has.
pub open spec fn possible(leaves: Seq<LeafView>, wishes: Seq<Option<usize>>) -> bool {
    &&& wishes.len() == leaves.len()
    &&& forall|i: int|
        0 <= i < wishes.len() ==> (#[trigger] wishes[i] matches Some(w) ==> w
            < leaves[i].lods.len() && leaves[i].lods[w as int] is Some)
}

/// Every turn is that of a leaf.
pub open spec fn turns_of(leaves: Seq<LeafView>, order: Seq<usize>) -> bool {
    forall|k: int| 0 <= k < order.len() ==> (#[trigger] order[k]) < leaves.len()
}

/// What `first_affordable` finds; it finds something wherever something is.
proof fn lemma_first_affordable(lods: Seq<Option<LodInterval>>, level: int, room: int, some: int)
    requires
        0 <= level <= some < lods.len(),
        lods[some] is Some,
        run_cost(lods[some]) <= room,
    ensures
        first_affordable(lods, level, room) matches Some(l) && level <= l <= some && lods[l] is Some
            && run_cost(lods[l]) <= room,
    decreases lods.len() - level,
{
    if !(lods[level] is Some && run_cost(lods[level]) <= room) {
        lemma_first_affordable(lods, level + 1, room, some);
    }
}

/// What `first_affordable` finds, where it finds anything.
proof fn lemma_affordable(lods: Seq<Option<LodInterval>>, level: int, room: int)
    requires
        0 <= level,
    ensures
        first_affordable(lods, level, room) matches Some(l) ==> level <= l < lods.len()
            && lods[l] is Some && run_cost(lods[l]) <= room,
    decreases lods.len() - level,
{
    if level < lods.len() && !(lods[level] is Some && run_cost(lods[level]) <= room) {
        lemma_affordable(lods, level + 1, room);
    }
}

/// A leaf that has some level has a coarsest, which is no finer.
proof fn lemma_coarsest(leaf: LeafView, level: int, below: int)
    requires
        0 <= level < below <= leaf.lods.len(),
        leaf.lods[level] is Some,
    ensures
        last_before(leaf.lods, below) matches Some(l) && level <= l < below
            && leaf.lods[l] is Some,
    decreases below,
{
    if leaf.lods[below - 1] is None {
        lemma_coarsest(leaf, level, below - 1);
    }
}

/// Sharing a budget starves no leaf and grants none a finer level than it wishes:
/// whatever the budget, a leaf with a wish is granted a level that it has, at least
/// as coarse as the wish, and a leaf without one is granted none.
pub proof fn sharing_starves_no_leaf(
    leaves: Seq<LeafView>,
    wishes: Seq<Option<usize>>,
    order: Seq<usize>,
    capacity: int,
    k: nat,
    i: int,
)
    requires
        possible(leaves, wishes),
        turns_of(leaves, order),
        k <= order.len(),
        leaves.len() <= usize::MAX,
        forall|j: int| 0 <= j < leaves.len() ==> (#[trigger] leaves[j]).lods.len() <= usize::MAX,
        0 <= i < leaves.len(),
    ensures
        granted(leaves, wishes, order, capacity, k).len() == leaves.len(),
        match wishes[i] {
            Some(wish) => granted(leaves, wishes, order, capacity, k)[i] matches Some(l) && wish <= l
                < leaves[i].lods.len() && leaves[i].lods[l as int] is Some,
            None => granted(leaves, wishes, order, capacity, k)[i] is None,
        },
    decreases k,
{
    if wishes[i] is Some {
        lemma_coarsest(leaves[i], wishes[i]->0 as int, leaves[i].lods.len() as int);
    }
    if k > 0 {
        sharing_starves_no_leaf(leaves, wishes, order, capacity, (k - 1) as nat, i);
        let before = granted(leaves, wishes, order, capacity, (k - 1) as nat);
        let turn = order[k - 1] as int;
        if turn == i && wishes[i] is Some {
            let room = capacity - (total_cost(leaves, before) - cost(leaves[i], before[i]));
            lemma_affordable(leaves[i].lods, wishes[i]->0 as int, room);
        }
    }
}

/// The budget is kept: where the coarsest levels of all leaves fit, what is
/// granted fits at every turn.
pub proof fn budget_is_kept(
    leaves: Seq<LeafView>,
    wishes: Seq<Option<usize>>,
    order: Seq<usize>,
    capacity: int,
    k: nat,
)
    requires
        possible(leaves, wishes),
        turns_of(leaves, order),
        k <= order.len(),
        leaves.len() <= usize::MAX,
        forall|j: int| 0 <= j < leaves.len() ==> (#[trigger] leaves[j]).lods.len() <= usize::MAX,
        total_cost(leaves, at_coarsest(leaves, wishes)) <= capacity,
    ensures
        total_cost(leaves, granted(leaves, wishes, order, capacity, k)) <= capacity,
    decreases k,
{
    if k > 0 {
        budget_is_kept(leaves, wishes, order, capacity, (k - 1) as nat);
        let before = granted(leaves, wishes, order, capacity, (k - 1) as nat);
        let i = order[k - 1] as int;
        sharing_starves_no_leaf(leaves, wishes, order, capacity, (k - 1) as nat, i);
        if wishes[i] is Some {
            let room = capacity - (total_cost(leaves, before) - cost(leaves[i], before[i]));
            lemma_first_affordable(leaves[i].lods, wishes[i]->0 as int, room, before[i]->0 as int);
            lemma_total_update(
                leaves,
                before,
                i,
                grant(leaves[i], wishes[i]->0, room),
            );
        }
    }
}

/// Levels that cost no more leaf by leaf cost no more together.
proof fn lemma_total_monotone(
    leaves: Seq<LeafView>,
    less: Seq<Option<usize>>,
    more: Seq<Option<usize>>,
)
    requires
        less.len() == more.len(),
        forall|i: int|
            0 <= i < less.len() ==> cost(leaves[i], #[trigger] less[i]) <= cost(leaves[i], more[i]),
    ensures
        total_cost(leaves, less) <= total_cost(leaves, more),
    decreases less.len(),
{
    if less.len() > 0 {
        assert forall|i: int| 0 <= i < less.len() - 1 implies cost(
            leaves[i],
            #[trigger] less.drop_last()[i],
        ) <= cost(leaves[i], more.drop_last()[i]) by {
            assert(less[i] == less.drop_last()[i]);
        }
        assert(less[less.len() - 1] == less.last());
        lemma_total_monotone(leaves, less.drop_last(), more.drop_last());
    }
}

/// Where all wishes fit together, and no leaf's coarsest level costs more than
/// its wish, every leaf that had its turn is granted its wish.
pub proof fn wishes_that_fit_come_true(
    leaves: Seq<LeafView>,
    wishes: Seq<Option<usize>>,
    order: Seq<usize>,
    capacity: int,
    k: nat,
)
    requires
        possible(leaves, wishes),
        turns_of(leaves, order),
        k <= order.len(),
        leaves.len() <= usize::MAX,
        forall|j: int| 0 <= j < leaves.len() ==> (#[trigger] leaves[j]).lods.len() <= usize::MAX,
        total_cost(leaves, wishes) <= capacity,
        forall|i: int|
            0 <= i < leaves.len() ==> (#[trigger] wishes[i] is Some ==> cost(
                leaves[i],
                coarsest(leaves[i]),
            ) <= cost(leaves[i], wishes[i])),
    ensures
        forall|i: int|
            0 <= i < leaves.len() && order.subrange(0, k as int).contains(i as usize)
                ==> #[trigger] granted(leaves, wishes, order, capacity, k)[i] == wishes[i],
        forall|i: int|
            0 <= i < leaves.len() ==> cost(
                leaves[i],
                #[trigger] granted(leaves, wishes, order, capacity, k)[i],
            ) <= cost(leaves[i], wishes[i]),
    decreases k,
{
    let after = granted(leaves, wishes, order, capacity, k);
    if k == 0 {
        assert(order.subrange(0, 0) =~= Seq::empty());
        assert forall|i: int| 0 <= i < leaves.len() implies cost(leaves[i], #[trigger] after[i])
            <= cost(leaves[i], wishes[i]) by {
            assert(wishes[i] is Some || wishes[i] is None);
        }
    } else {
        let j = (k - 1) as nat;
        wishes_that_fit_come_true(leaves, wishes, order, capacity, j);
        let before = granted(leaves, wishes, order, capacity, j);
        let turn = order[k - 1] as int;
        sharing_starves_no_leaf(leaves, wishes, order, capacity, j, turn);
        assert(before.len() == wishes.len());
        if wishes[turn] is Some {
            let wish = wishes[turn]->0;
            let room = capacity - (total_cost(leaves, before) - cost(leaves[turn], before[turn]));
            let moved = before.update(turn, wishes[turn]);
            lemma_total_update(leaves, before, turn, wishes[turn]);
            assert forall|i: int| 0 <= i < moved.len() implies cost(leaves[i], #[trigger] moved[i])
                <= cost(leaves[i], wishes[i]) by {
                assert(cost(leaves[i], before[i]) <= cost(leaves[i], wishes[i]));
            }
            lemma_total_monotone(leaves, moved, wishes);
            assert(first_affordable(leaves[turn].lods, wish as int, room) == Some(wish as int));
            assert(after == moved);
        }
        assert forall|i: int|
            0 <= i < leaves.len() && order.subrange(0, k as int).contains(
                i as usize,
            ) implies #[trigger] after[i] == wishes[i] by {
            if i != turn {
                let at = choose|at: int|
                    0 <= at < k && order.subrange(0, k as int)[at] == i as usize;
                assert(order.subrange(0, j as int)[at] == i as usize);
                assert(before[i] == wishes[i]);
            }
        }
        assert forall|i: int| 0 <= i < leaves.len() implies cost(leaves[i], #[trigger] after[i])
            <= cost(leaves[i], wishes[i]) by {
            assert(cost(leaves[i], before[i]) <= cost(leaves[i], wishes[i]));
        }
    }
}

/// Nearest first, every leaf has a turn.
pub proof fn every_leaf_has_a_turn(distances: Seq<FloatBits>, order: Seq<usize>, i: usize)
    requires
        nearest_first(distances, order),
        i < distances.len(),
    ensures
        order.contains(i),
{
    let places = order.map_values(|x: usize| x as int);
    assert(places.no_duplicates()) by {
        assert forall|j: int, k: int|
            0 <= j < places.len() && 0 <= k < places.len() && j != k implies places[j]
            != places[k] by {
            if j < k {
                assert(turn_before(distances, order[j], order[k]));
            } else {
                assert(turn_before(distances, order[k], order[j]));
            }
        }
    }
    places.unique_seq_to_set();
    let all = vstd::set_lib::set_int_range(0, distances.len() as int);
    vstd::set_lib::lemma_int_range(0, distances.len() as int);
    assert(places.to_set().subset_of(all)) by {
        assert forall|x: int| places.to_set().contains(x) implies all.contains(x) by {
            let k = choose|k: int| 0 <= k < places.len() && places[k] == x;
            assert(order[k] < distances.len());
        }
    }
    vstd::set_lib::lemma_subset_equality(places.to_set(), all);
    assert(places.to_set().contains(i as int));
    let k = choose|k: int| 0 <= k < places.len() && places[k] == i as int;
    assert(order[k] == i);
}

/// The most splats that one of the first `k` levels has.
pub open spec fn largest_run(lods: Seq<Option<LodInterval>>, k: nat) -> int
    decreases k,
{
    if k == 0 {
        0
    } else {
        let before = largest_run(lods, (k - 1) as nat);
        let last = run_cost(lods[k - 1]);
        if last > before {
            last
        } else {
            before
        }
    }
}

/// Splats of the first `k` leaves, each at its largest level.
pub open spec fn sum_of_largest(leaves: Seq<LeafView>, k: nat) -> int
    decreases k,
{
    if k == 0 {
        0
    } else {
        sum_of_largest(leaves, (k - 1) as nat) + largest_run(
            leaves[k - 1].lods,
            leaves[k - 1].lods.len(),
        )
    }
}

/// The most splats that one of the first `k` leaves can show.
pub open spec fn largest_of(leaves: Seq<LeafView>, k: nat) -> int
    decreases k,
{
    if k == 0 {
        0
    } else {
        let before = largest_of(leaves, (k - 1) as nat);
        let last = largest_run(leaves[k - 1].lods, leaves[k - 1].lods.len());
        if last > before {
            last
        } else {
            before
        }
    }
}

/// Splats that a composite cloud holds: the budget, or without one every leaf at
/// its largest, and one more block, so that gaps between blocks leave room for a
/// leaf that moves.
pub open spec fn cloud_capacity(leaves: Seq<LeafView>, splat_budget: int) -> int {
    if splat_budget > 0 {
        splat_budget
    } else {
        let needed = sum_of_largest(leaves, leaves.len()) + largest_of(leaves, leaves.len());
        if needed <= usize::MAX {
            needed
        } else {
            usize::MAX as int
        }
    }
}

/// The most splats that a leaf can show.
fn largest_run_of(leaf: &LodLeaf) -> (r: usize)
    ensures
        r == largest_run(leaf@.lods, leaf@.lods.len()),
{
    let mut most: usize = 0;
    let mut k: usize = 0;
    while k < leaf.lods.len()
        invariant
            k <= leaf.lods@.len(),
            most == largest_run(leaf@.lods, k as nat),
        decreases leaf.lods@.len() - k,
    {
        if let Some(run) = &leaf.lods[k] {
            if run.count > most {
                most = run.count;
            }
        }
        k = k + 1;
    }
    most
}

/// Splats that a composite cloud holds: the budget, or without one every leaf at
/// its largest, and one more block, so that gaps between blocks leave room for a
/// leaf that moves.
pub fn composite_capacity(leaves: &Vec<LodLeaf>, splat_budget: usize) -> (r: usize)
    ensures
        r == cloud_capacity(leaf_views(leaves@), splat_budget as int),
{
    if splat_budget > 0 {
        return splat_budget;
    }
    let ghost views = leaf_views(leaves@);
    let mut sum: usize = 0;
    let mut most: usize = 0;
    let mut k: usize = 0;
    while k < leaves.len()
        invariant
            k <= leaves@.len(),
            views == leaf_views(leaves@),
            most == largest_of(views, k as nat),
            sum == sum_of_largest(views, k as nat) || (sum == usize::MAX && sum_of_largest(
                views,
                k as nat,
            ) >= usize::MAX),
        decreases leaves@.len() - k,
    {
        let own = largest_run_of(&leaves[k]);
        assert(views[k as int] == leaves@[k as int]@);
        sum = if sum <= usize::MAX - own {
            sum + own
        } else {
            usize::MAX
        };
        if own > most {
            most = own;
        }
        k = k + 1;
    }
    if sum <= usize::MAX - most {
        sum + most
    } else {
        usize::MAX
    }
}

/// A run costs its rows, a leaf without a level nothing, and a change of one leaf's
/// level changes the sum by the difference.
pub proof fn runs_cost_their_rows(
    leaves: Seq<LeafView>,
    levels: Seq<Option<usize>>,
    i: int,
    level: Option<usize>,
)
    requires
        0 <= i < levels.len(),
    ensures
        cost(leaves[i], None) == 0,
        level matches Some(l) ==> cost(leaves[i], level) == (match leaves[i].lods[l as int] {
            Some(run) => run.count as int,
            None => 0,
        }),
        total_cost(leaves, Seq::empty()) == 0,
        total_cost(leaves, levels.update(i, level)) - total_cost(leaves, levels) == cost(
            leaves[i],
            level,
        ) - cost(leaves[i], levels[i]),
        (forall|j: int| 0 <= j < levels.len() ==> (#[trigger] levels[j]) is None) ==> total_cost(
            leaves,
            levels,
        ) == 0,
{
    lemma_total_update(leaves, levels, i, level);
    lemma_nothing_costs_nothing(leaves, levels);
}

/// Leaves without levels show nothing together.
proof fn lemma_nothing_costs_nothing(leaves: Seq<LeafView>, levels: Seq<Option<usize>>)
    ensures
        (forall|j: int| 0 <= j < levels.len() ==> (#[trigger] levels[j]) is None) ==> total_cost(
            leaves,
            levels,
        ) == 0,
    decreases levels.len(),
{
    if levels.len() > 0 {
        lemma_nothing_costs_nothing(leaves, levels.drop_last());
        if forall|j: int| 0 <= j < levels.len() ==> (#[trigger] levels[j]) is None {
            assert(levels[levels.len() - 1] is None);
            assert forall|j: int| 0 <= j < levels.drop_last().len() implies (
            #[trigger] levels.drop_last()[j]) is None by {
                assert(levels[j] is None);
            }
        }
    }
}

/// What the search for an affordable level passes over is not affordable.
proof fn lemma_not_affordable(lods: Seq<Option<LodInterval>>, level: int, room: int, k: int)
    requires
        0 <= level,
    ensures
        match first_affordable(lods, level, room) {
            Some(l) => level <= k < l ==> !(lods[k] matches Some(run) && run.count <= room),
            None => level <= k < lods.len() ==> !(lods[k] matches Some(run) && run.count <= room),
        },
    decreases lods.len() - level,
{
    if level < lods.len() && !(lods[level] is Some && run_cost(lods[level]) <= room) {
        lemma_not_affordable(lods, level + 1, room, k);
    }
}

/// A leaf is granted the finest level from its wish on whose rows there is room
/// for. Where there is room for none of them, it is granted the coarsest level
/// that it has.
pub proof fn grants_are_the_finest_that_fit(leaf: LeafView, wish: usize, room: int)
    requires
        leaf.lods.len() <= usize::MAX,
    ensures
        match grant(leaf, wish, room) {
            Some(l) => {
                &&& l < leaf.lods.len()
                &&& leaf.lods[l as int] is Some
                &&& {
                    ||| l >= wish && leaf.lods[l as int]->0.count <= room && forall|k: int|
                        wish <= k < l ==> !((#[trigger] leaf.lods[k]) matches Some(run) && run.count
                            <= room)
                    ||| (forall|k: int|
                        wish <= k < leaf.lods.len() ==> !((#[trigger] leaf.lods[k]) matches Some(
                            run,
                        ) && run.count <= room)) && (forall|k: int|
                        l < k < leaf.lods.len() ==> (#[trigger] leaf.lods[k]) is None)
                }
            },
            None => forall|k: int|
                0 <= k < leaf.lods.len() ==> (#[trigger] leaf.lods[k]) is None,
        },
{
    lemma_affordable(leaf.lods, wish as int, room);
    lemma_last_before(leaf.lods, leaf.lods.len() as int);
    assert forall|k: int| wish <= k < leaf.lods.len() implies (match first_affordable(
        leaf.lods,
        wish as int,
        room,
    ) {
        Some(l) => k < l ==> !((#[trigger] leaf.lods[k]) matches Some(run) && run.count <= room),
        None => !(leaf.lods[k] matches Some(run) && run.count <= room),
    }) by {
        lemma_not_affordable(leaf.lods, wish as int, room, k);
    }
}

/// A turn is for one leaf, and spends what all the others leave: the leaf gets the
/// finest level from its wish on with which all leaves together stay within the
/// capacity, and no other leaf's level changes.
pub proof fn a_turn_spends_what_others_leave(
    leaves: Seq<LeafView>,
    wishes: Seq<Option<usize>>,
    order: Seq<usize>,
    capacity: int,
    k: nat,
    m: int,
)
    requires
        possible(leaves, wishes),
        turns_of(leaves, order),
        k < order.len(),
        leaves.len() <= usize::MAX,
        forall|j: int| 0 <= j < leaves.len() ==> (#[trigger] leaves[j]).lods.len() <= usize::MAX,
    ensures
        ({
            let before = granted(leaves, wishes, order, capacity, k);
            let after = granted(leaves, wishes, order, capacity, k + 1);
            let i = order[k as int] as int;
            &&& forall|j: int| 0 <= j < leaves.len() && j != i ==> #[trigger] after[j] == before[j]
            &&& wishes[i] matches Some(wish) ==> {
                &&& after[i] matches Some(l) && wish <= l && (wish <= m < l && leaves[i].lods[m] is Some
                    ==> total_cost(leaves, before.update(i, Some(m as usize))) > capacity)
                &&& total_cost(leaves, after) > capacity ==> (wish <= m < leaves[i].lods.len()
                    && leaves[i].lods[m] is Some ==> total_cost(
                    leaves,
                    before.update(i, Some(m as usize)),
                ) > capacity)
            }
        }),
{
    let before = granted(leaves, wishes, order, capacity, k);
    let after = granted(leaves, wishes, order, capacity, k + 1);
    let i = order[k as int] as int;
    sharing_starves_no_leaf(leaves, wishes, order, capacity, k, i);
    sharing_starves_no_leaf(leaves, wishes, order, capacity, k + 1, i);
    if let Some(wish) = wishes[i] {
        let room = capacity - (total_cost(leaves, before) - cost(leaves[i], before[i]));
        grants_are_the_finest_that_fit(leaves[i], wish, room);
        assert(after == before.update(i, grant(leaves[i], wish, room)));
        lemma_total_update(leaves, before, i, after[i]);
        if wish <= m < leaves[i].lods.len() && leaves[i].lods[m] is Some {
            lemma_total_update(leaves, before, i, Some(m as usize));
            assert(!(leaves[i].lods[m] matches Some(run) && run.count <= room) ==> total_cost(
                leaves,
                before.update(i, Some(m as usize)),
            ) > capacity);
        }
    }
}

/// Before any turn every leaf that wishes a level has its coarsest one, so that
/// whoever comes later is not left without.
pub proof fn everyone_starts_at_the_coarsest(
    leaves: Seq<LeafView>,
    wishes: Seq<Option<usize>>,
    order: Seq<usize>,
    capacity: int,
    i: int,
)
    requires
        0 <= i < wishes.len(),
        leaves[i].lods.len() <= usize::MAX,
    ensures
        ({
            let start = granted(leaves, wishes, order, capacity, 0);
            &&& start.len() == wishes.len()
            &&& wishes[i] is None ==> start[i] is None
            &&& wishes[i] is Some ==> match start[i] {
                Some(l) => l < leaves[i].lods.len() && leaves[i].lods[l as int] is Some
                    && forall|k: int|
                    l < k < leaves[i].lods.len() ==> (#[trigger] leaves[i].lods[k]) is None,
                None => forall|k: int|
                    0 <= k < leaves[i].lods.len() ==> (#[trigger] leaves[i].lods[k]) is None,
            }
        }),
{
    lemma_last_before(leaves[i].lods, leaves[i].lods.len() as int);
}

/// Nearer leaves come first: one whose distance is below another's has its turn
/// before it, of two as near the one with the smaller number, and one whose
/// distance is no number after all others.
pub proof fn nearer_leaves_come_first(
    distances: Seq<FloatBits>,
    order: Seq<usize>,
    a: int,
    b: int,
)
    requires
        nearest_first(distances, order),
        0 <= a < order.len(),
        0 <= b < order.len(),
    ensures
        distances[order[a] as int].below(distances[order[b] as int]) ==> a < b,
        distances[order[a] as int].same_number(distances[order[b] as int]) && order[a] < order[b]
            ==> a < b,
        !distances[order[a] as int].nan() && distances[order[b] as int].nan() ==> a < b,
{
    places_sort_numbers(distances[order[a] as int], distances[order[b] as int]);
    places_sort_numbers(distances[order[b] as int], distances[order[a] as int]);
    if b < a {
        assert(turn_before(distances, order[b], order[a]));
    }
}

/// What a leaf shows is never more than its largest run.
proof fn lemma_largest_run(lods: Seq<Option<LodInterval>>, k: nat, l: int)
    ensures
        largest_run(lods, k) >= 0,
        0 <= l < k ==> run_cost(lods[l]) <= largest_run(lods, k),
    decreases k,
{
    if k > 0 {
        lemma_largest_run(lods, (k - 1) as nat, l);
    }
}

/// Some level has the largest run, or there is none to speak of.
proof fn lemma_some_largest(lods: Seq<Option<LodInterval>>, k: nat) -> (l: Option<int>)
    ensures
        match l {
            Some(l) => 0 <= l < k && run_cost(lods[l]) == largest_run(lods, k),
            None => largest_run(lods, k) == 0,
        },
    decreases k,
{
    if k == 0 {
        None
    } else {
        let before = lemma_some_largest(lods, (k - 1) as nat);
        if run_cost(lods[k - 1]) > largest_run(lods, (k - 1) as nat) {
            Some(k - 1)
        } else {
            before
        }
    }
}

/// Whether every level is one that its leaf has an entry for.
pub open spec fn levels_of(leaves: Seq<LeafView>, levels: Seq<Option<usize>>) -> bool {
    &&& levels.len() <= leaves.len()
    &&& forall|i: int|
        0 <= i < levels.len() ==> (#[trigger] levels[i] matches Some(l) ==> l
            < leaves[i].lods.len())
}

/// No choice of levels costs more than the largest runs.
proof fn lemma_largest_sum(leaves: Seq<LeafView>, levels: Seq<Option<usize>>)
    requires
        levels_of(leaves, levels),
    ensures
        total_cost(leaves, levels) <= sum_of_largest(leaves, levels.len()),
    decreases levels.len(),
{
    if levels.len() > 0 {
        let before = levels.drop_last();
        let last = levels.len() - 1;
        assert(levels[last] == levels.last());
        assert forall|i: int| 0 <= i < before.len() implies (#[trigger] before[i] matches Some(l)
            ==> l < leaves[i].lods.len()) by {
            assert(levels[i] == before[i]);
        }
        lemma_largest_sum(leaves, before);
        let lods = leaves[last].lods;
        match levels[last] {
            Some(l) => {
                lemma_largest_run(lods, lods.len(), l as int);
            },
            None => {
                lemma_largest_run(lods, lods.len(), 0);
            },
        }
    }
}

/// No leaf shows more than the largest of all.
proof fn lemma_largest_of(leaves: Seq<LeafView>, k: nat, i: int)
    ensures
        largest_of(leaves, k) >= 0,
        0 <= i < k ==> largest_run(leaves[i].lods, leaves[i].lods.len()) <= largest_of(leaves, k),
    decreases k,
{
    if k > 0 {
        lemma_largest_of(leaves, (k - 1) as nat, i);
    }
}

/// A cloud holds its budget where it has one. Without one it holds whatever levels
/// are chosen, and one more run of any leaf beside them, up to what can be
/// counted.
pub proof fn every_choice_fits_without_a_budget(
    leaves: Seq<LeafView>,
    splat_budget: int,
    levels: Seq<Option<usize>>,
    i: int,
    level: usize,
)
    requires
        levels_of(leaves, levels),
        levels.len() == leaves.len(),
        0 <= i < leaves.len(),
        level < leaves[i].lods.len(),
    ensures
        splat_budget > 0 ==> cloud_capacity(leaves, splat_budget) == splat_budget,
        splat_budget <= 0 ==> cloud_capacity(leaves, splat_budget) == usize::MAX || total_cost(
            leaves,
            levels,
        ) + cost(leaves[i], Some(level)) <= cloud_capacity(leaves, splat_budget),
{
    lemma_largest_sum(leaves, levels);
    lemma_largest_run(leaves[i].lods, leaves[i].lods.len(), level as int);
    lemma_largest_of(leaves, leaves.len(), i);
}

/// The levels of the largest runs of the first `k` leaves.
proof fn lemma_costliest(leaves: Seq<LeafView>, k: nat) -> (levels: Seq<Option<usize>>)
    requires
        k <= leaves.len(),
        forall|j: int| 0 <= j < leaves.len() ==> (#[trigger] leaves[j]).lods.len() <= usize::MAX,
    ensures
        levels.len() == k,
        levels_of(leaves, levels),
        total_cost(leaves, levels) == sum_of_largest(leaves, k),
        largest_of(leaves, k) == 0 || exists|i: int|
            0 <= i < k && cost(leaves[i], #[trigger] levels[i]) == largest_of(leaves, k),
    decreases k,
{
    if k == 0 {
        Seq::empty()
    } else {
        let before = lemma_costliest(leaves, (k - 1) as nat);
        let lods = leaves[k - 1].lods;
        let last: Option<usize> = match lemma_some_largest(lods, lods.len()) {
            Some(l) => Some(l as usize),
            None => None,
        };
        let levels = before.push(last);
        assert(levels.drop_last() =~= before);
        assert(cost(leaves[k - 1], levels[k - 1]) == largest_run(lods, lods.len()));
        assert forall|i: int| 0 <= i < k - 1 implies #[trigger] levels[i] == before[i] by {}
        if largest_of(leaves, (k - 1) as nat) != 0 {
            let i = choose|i: int|
                0 <= i < k - 1 && cost(leaves[i], #[trigger] before[i]) == largest_of(
                    leaves,
                    (k - 1) as nat,
                );
            assert(levels[i] == before[i]);
        }
        levels
    }
}

/// A cloud without a budget is no larger than it has to be: some choice of levels
/// together with one more run needs all of it.
pub proof fn capacity_is_needed(leaves: Seq<LeafView>) -> (r: (Seq<Option<usize>>, int))
    requires
        forall|j: int| 0 <= j < leaves.len() ==> (#[trigger] leaves[j]).lods.len() <= usize::MAX,
    ensures
        levels_of(leaves, r.0),
        r.0.len() == leaves.len(),
        leaves.len() > 0 ==> 0 <= r.1 < leaves.len(),
        cloud_capacity(leaves, 0) <= total_cost(leaves, r.0) + (if leaves.len() > 0 {
            cost(leaves[r.1], r.0[r.1])
        } else {
            0
        }),
{
    let levels = lemma_costliest(leaves, leaves.len());
    if leaves.len() > 0 {
        if largest_of(leaves, leaves.len()) == 0 {
            lemma_largest_run(leaves[0].lods, leaves[0].lods.len(), 0);
            (levels, 0)
        } else {
            let i = choose|i: int|
                0 <= i < leaves.len() && cost(leaves[i], #[trigger] levels[i]) == largest_of(
                    leaves,
                    leaves.len(),
                );
            (levels, i)
        }
    } else {
        (levels, 0)
    }
}

} // verus!
