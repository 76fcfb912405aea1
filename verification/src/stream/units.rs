//! Decoded units: assembling them from their files, and keeping them while they
//! are of use.

use std::sync::Arc;

use vstd::prelude::*;
use vstd::string::*;

use crate::error::{wording, ReadError, ReadProblem};
use crate::gaussian::{
    is_padded, pad_to_multiple_of_32, padding_shows_nothing, Gaussian3d,
};
use crate::io::sog::{
    answers, answers_all, code16, decode_range, picture_in, reply_view,
    textures_are_those_of_their_files, Reply, SogMeta, SogTextures,
};
use crate::text::{
    before_last_slash, decimal, ends_with, join_path, parent_dir,
    paths_come_apart_at_the_last_slash, push_index, starts_with, under,
};

verus! {

/// A unit whose textures are decoded, so that any run of its rows can be.
#[derive(Debug)]
pub struct DecodedUnit {
    pub meta: SogMeta,
    pub textures: SogTextures,
}

impl DecodedUnit {
    /// The textures reach far enough for every row.
    pub open spec fn wf(self) -> bool {
        self.textures.covers(self.meta, self.meta.count as int)
    }
}

/// How far a unit is.
#[derive(Debug)]
pub enum UnitState {
    Loading,
    Ready(Arc<DecodedUnit>),
    Failed,
}

/// A unit that is kept.
#[derive(Debug)]
pub struct UnitEntry {
    pub state: UnitState,
    /// runs of leaves that are being decoded from the unit
    pub refs: usize,
    /// frames left
    pub cooldown: u32,
    /// frames that are given anew with every use
    pub cooldown_reset: u32,
}

/// An entry with its key.
#[derive(Debug)]
struct UnitSlot {
    scene: u64,
    file: usize,
    entry: UnitEntry,
}

impl UnitSlot {
    /// The key: a scene and one of its files.
    spec fn key(self) -> (u64, usize) {
        (self.scene, self.file)
    }
}

/// Whether one of the slots has key `k`.
spec fn has_key(slots: Seq<UnitSlot>, k: (u64, usize)) -> bool {
    exists|i: int| 0 <= i < slots.len() && (#[trigger] slots[i]).key() == k
}

/// No key twice.
spec fn unique(slots: Seq<UnitSlot>) -> bool {
    forall|i: int, j: int|
        0 <= i < j < slots.len() ==> (#[trigger] slots[i]).key() != (#[trigger] slots[j]).key()
}

/// The entries by their keys.
spec fn map_of(slots: Seq<UnitSlot>) -> Map<(u64, usize), UnitEntry> {
    Map::new(
        |k: (u64, usize)| has_key(slots, k),
        |k: (u64, usize)|
            slots[choose|i: int| 0 <= i < slots.len() && (#[trigger] slots[i]).key() == k].entry,
    )
}

/// Units that are loading, decoded or could not be loaded, by scene and file.
#[derive(Debug)]
pub struct SogUnitCache {
    units: Vec<UnitSlot>,
}

impl View for SogUnitCache {
    type V = Map<(u64, usize), UnitEntry>;

    closed spec fn view(&self) -> Map<(u64, usize), UnitEntry> {
        map_of(self.units@)
    }
}

/// A slot is found by its key.
proof fn lemma_at(slots: Seq<UnitSlot>, i: int)
    requires
        unique(slots),
        0 <= i < slots.len(),
    ensures
        map_of(slots).contains_key(slots[i].key()),
        map_of(slots)[slots[i].key()] == slots[i].entry,
{
    let k = slots[i].key();
    let j = choose|j: int| 0 <= j < slots.len() && (#[trigger] slots[j]).key() == k;
    if j < i {
        assert(slots[j].key() != slots[i].key());
    } else if i < j {
        assert(slots[i].key() != slots[j].key());
    }
}

/// A new slot is a new entry.
proof fn lemma_push(slots: Seq<UnitSlot>, slot: UnitSlot)
    requires
        unique(slots),
        !has_key(slots, slot.key()),
    ensures
        unique(slots.push(slot)),
        map_of(slots.push(slot)) == map_of(slots).insert(slot.key(), slot.entry),
{
    let after = slots.push(slot);
    assert forall|i: int, j: int| 0 <= i < j < after.len() implies (#[trigger] after[i]).key() != (
    #[trigger] after[j]).key() by {
        if j == slots.len() {
            assert(after[i] == slots[i]);
        }
    }
    assert forall|k: (u64, usize)| has_key(after, k) <==> has_key(slots, k) || k == slot.key() by {
        if has_key(after, k) {
            let i = choose|i: int| 0 <= i < after.len() && (#[trigger] after[i]).key() == k;
            if i < slots.len() {
                assert(slots[i].key() == k);
            }
        }
        if has_key(slots, k) {
            let i = choose|i: int| 0 <= i < slots.len() && (#[trigger] slots[i]).key() == k;
            assert(after[i].key() == k);
        }
        assert(after[slots.len() as int].key() == slot.key());
    }
    let left = map_of(after);
    let right = map_of(slots).insert(slot.key(), slot.entry);
    assert forall|k: (u64, usize)| left.contains_key(k) implies left[k] == right[k] by {
        let i = choose|i: int| 0 <= i < after.len() && (#[trigger] after[i]).key() == k;
        lemma_at(after, i);
        if i < slots.len() {
            assert(slots[i] == after[i]);
            lemma_at(slots, i);
            assert(has_key(slots, k));
        }
    }
    assert(left =~= right);
}

/// A changed slot is a changed entry.
proof fn lemma_set(slots: Seq<UnitSlot>, i: int, slot: UnitSlot)
    requires
        unique(slots),
        0 <= i < slots.len(),
        slot.key() == slots[i].key(),
    ensures
        unique(slots.update(i, slot)),
        map_of(slots.update(i, slot)) == map_of(slots).insert(slot.key(), slot.entry),
{
    let after = slots.update(i, slot);
    assert forall|a: int, b: int| 0 <= a < b < after.len() implies (#[trigger] after[a]).key() != (
    #[trigger] after[b]).key() by {
        assert(after[a].key() == slots[a].key());
        assert(after[b].key() == slots[b].key());
    }
    assert forall|k: (u64, usize)| has_key(after, k) <==> has_key(slots, k) by {
        if has_key(after, k) {
            let j = choose|j: int| 0 <= j < after.len() && (#[trigger] after[j]).key() == k;
            assert(slots[j].key() == k);
        }
        if has_key(slots, k) {
            let j = choose|j: int| 0 <= j < slots.len() && (#[trigger] slots[j]).key() == k;
            assert(after[j].key() == k);
        }
    }
    let left = map_of(after);
    let right = map_of(slots).insert(slot.key(), slot.entry);
    assert(has_key(slots, slot.key()));
    assert forall|k: (u64, usize)| left.contains_key(k) implies left[k] == right[k] by {
        let j = choose|j: int| 0 <= j < after.len() && (#[trigger] after[j]).key() == k;
        lemma_at(after, j);
        lemma_at(slots, j);
    }
    assert(left =~= right);
}

/// Number of units that are loading or decoded.
pub open spec fn live_count(units: Map<(u64, usize), UnitEntry>) -> nat {
    resident(units).len()
}

/// The keys of the units that are loading or decoded.
pub open spec fn resident(units: Map<(u64, usize), UnitEntry>) -> Set<(u64, usize)> {
    units.dom().filter(|k: (u64, usize)| !(units[k].state is Failed))
}

/// How many slots hold a unit that is loading or decoded.
spec fn resident_count(slots: Seq<UnitSlot>) -> nat
    decreases slots.len(),
{
    if slots.len() == 0 {
        0
    } else {
        resident_count(slots.drop_last()) + if slots.last().entry.state is Failed {
            0nat
        } else {
            1nat
        }
    }
}

/// There are as many units that are loading or decoded as slots that hold one.
proof fn lemma_resident(slots: Seq<UnitSlot>)
    requires
        unique(slots),
    ensures
        resident(map_of(slots)).finite(),
        resident(map_of(slots)).len() == resident_count(slots),
    decreases slots.len(),
{
    if slots.len() == 0 {
        assert(resident(map_of(slots)) =~= Set::empty());
    } else {
        let before = slots.drop_last();
        let last = slots.last();
        assert(before.push(last) =~= slots);
        lemma_resident(before);
        if has_key(before, last.key()) {
            let i = choose|i: int| 0 <= i < before.len() && (#[trigger] before[i]).key()
                == last.key();
            assert(slots[i].key() != slots[slots.len() - 1].key());
        }
        lemma_push(before, last);
        if last.entry.state is Failed {
            assert(resident(map_of(slots)) =~= resident(map_of(before)));
        } else {
            assert(resident(map_of(slots)) =~= resident(map_of(before)).insert(last.key()));
        }
    }
}

impl SogUnitCache {
    /// No key twice, and every decoded unit is sound.
    pub closed spec fn wf(self) -> bool {
        &&& unique(self.units@)
        &&& forall|i: int|
            0 <= i < self.units@.len() ==> ((#[trigger] self.units@[i]).entry.state matches
                UnitState::Ready(unit) ==> unit.wf())
    }

    /// An empty cache.
    pub fn new() -> (r: SogUnitCache)
        ensures
            r.wf(),
            r@ == Map::<(u64, usize), UnitEntry>::empty(),
    {
        let r = SogUnitCache { units: Vec::new() };
        assert(r@ =~= Map::<(u64, usize), UnitEntry>::empty());
        r
    }

    /// Number of units that are loading or decoded. A unit that could not be loaded
    /// is not among them, though its entry stays for a while.
    pub fn len(&self) -> (r: usize)
        requires
            self.wf(),
        ensures
            r == live_count(self@),
    {
        let mut count: usize = 0;
        let mut i: usize = 0;
        assert(self.units@.subrange(0, 0) =~= Seq::empty());
        while i < self.units.len()
            invariant
                count <= i <= self.units@.len(),
                count == resident_count(self.units@.subrange(0, i as int)),
            decreases self.units@.len() - i,
        {
            let ghost longer = self.units@.subrange(0, i + 1);
            assert(longer.drop_last() =~= self.units@.subrange(0, i as int));
            assert(longer.last() == self.units@[i as int]);
            match self.units[i].entry.state {
                UnitState::Failed => {},
                _ => {
                    count = count + 1;
                },
            }
            i = i + 1;
        }
        proof {
            assert(self.units@.subrange(0, i as int) =~= self.units@);
            lemma_resident(self.units@);
        }
        count
    }

    /// Whether there are no entries at all: a unit that could not be loaded counts
    /// here as long as its entry stays.
    pub fn is_empty(&self) -> (r: bool)
        ensures
            r == (self@ == Map::<(u64, usize), UnitEntry>::empty()),
    {
        proof {
            if self.units@.len() == 0 {
                assert(self@ =~= Map::<(u64, usize), UnitEntry>::empty());
            } else {
                assert(has_key(self.units@, self.units@[0].key()));
                assert(self@.contains_key(self.units@[0].key()));
            }
        }
        self.units.len() == 0
    }

    /// Finds the slot of a unit.
    fn find(&self, scene: u64, file: usize) -> (r: Option<usize>)
        ensures
            match r {
                Some(i) => i < self.units@.len() && self.units@[i as int].key() == (scene, file),
                None => !has_key(self.units@, (scene, file)),
            },
    {
        let mut i: usize = 0;
        while i < self.units.len()
            invariant
                i <= self.units@.len(),
                forall|j: int| 0 <= j < i ==> (#[trigger] self.units@[j]).key() != (scene, file),
            decreases self.units@.len() - i,
        {
            if self.units[i].scene == scene && self.units[i].file == file {
                return Some(i);
            }
            i = i + 1;
        }
        None
    }

    /// The entry of a unit.
    pub fn get(&self, scene: u64, file: usize) -> (r: Option<&UnitEntry>)
        requires
            self.wf(),
        ensures
            match r {
                Some(entry) => self@.contains_key((scene, file)) && *entry == self@[(scene, file)],
                None => !self@.contains_key((scene, file)),
            },
            r matches Some(entry) ==> (entry.state matches UnitState::Ready(unit) ==> unit.wf()),
    {
        match self.find(scene, file) {
            Some(i) => {
                proof {
                    lemma_at(self.units@, i as int);
                }
                Some(&self.units[i].entry)
            },
            None => None,
        }
    }

    /// Adds a unit that is loading.
    pub fn begin_load(&mut self, scene: u64, file: usize, cooldown: u32)
        requires
            old(self).wf(),
            !old(self)@.contains_key((scene, file)),
        ensures
            final(self).wf(),
            final(self)@ == with_load(old(self)@, (scene, file), cooldown),
    {
        let entry = UnitEntry {
            state: UnitState::Loading,
            refs: 0,
            cooldown,
            cooldown_reset: cooldown,
        };
        let slot = UnitSlot { scene, file, entry };
        proof {
            lemma_push(self.units@, slot);
        }
        self.units.push(slot);
    }

    /// Counts one more use of a unit and gives it its frames anew.
    pub fn take_use(&mut self, scene: u64, file: usize)
        requires
            old(self).wf(),
            old(self)@.contains_key((scene, file)),
            old(self)@[(scene, file)].refs < usize::MAX,
        ensures
            final(self).wf(),
            final(self)@ == with_use(old(self)@, (scene, file)),
    {
        if let Some(i) = self.find(scene, file) {
            let ghost before = self.units@;
            proof {
                lemma_at(before, i as int);
            }
            self.units[i].entry.refs = self.units[i].entry.refs + 1;
            self.units[i].entry.cooldown = self.units[i].entry.cooldown_reset;
            proof {
                lemma_set(before, i as int, self.units@[i as int]);
                assert(self.units@ =~= before.update(i as int, self.units@[i as int]));
            }
        }
    }

    /// Counts one use of a unit less, if it is still there.
    pub fn end_use(&mut self, scene: u64, file: usize)
        requires
            old(self).wf(),
        ensures
            final(self).wf(),
            final(self)@ == without_use(old(self)@, (scene, file)),
    {
        if let Some(i) = self.find(scene, file) {
            let ghost before = self.units@;
            proof {
                lemma_at(before, i as int);
            }
            let refs = self.units[i].entry.refs;
            self.units[i].entry.refs = if refs > 0 {
                refs - 1
            } else {
                0
            };
            proof {
                lemma_set(before, i as int, self.units@[i as int]);
                assert(self.units@ =~= before.update(i as int, self.units@[i as int]));
            }
        }
    }
}

/// A unit that has just begun to load.
pub open spec fn new_entry(cooldown: u32) -> UnitEntry {
    UnitEntry { state: UnitState::Loading, refs: 0, cooldown, cooldown_reset: cooldown }
}

/// A unit with one more use and its frames anew.
pub open spec fn used(entry: UnitEntry) -> UnitEntry {
    UnitEntry { refs: (entry.refs + 1) as usize, cooldown: entry.cooldown_reset, ..entry }
}

/// The units with one more that is loading.
pub open spec fn with_load(
    units: Map<(u64, usize), UnitEntry>,
    key: (u64, usize),
    cooldown: u32,
) -> Map<(u64, usize), UnitEntry> {
    units.insert(key, new_entry(cooldown))
}

/// The units with one more use of the one at `key`.
pub open spec fn with_use(units: Map<(u64, usize), UnitEntry>, key: (u64, usize)) -> Map<
    (u64, usize),
    UnitEntry,
> {
    units.insert(key, used(units[key]))
}

/// A unit with one use less.
pub open spec fn unused(entry: UnitEntry) -> UnitEntry {
    UnitEntry {
        refs: if entry.refs > 0 {
            (entry.refs - 1) as usize
        } else {
            0
        },
        ..entry
    }
}

/// The units with one use less of the one at `key`, if it is there.
pub open spec fn without_use(
    units: Map<(u64, usize), UnitEntry>,
    key: (u64, usize),
) -> Map<(u64, usize), UnitEntry> {
    if units.contains_key(key) {
        units.insert(key, unused(units[key]))
    } else {
        units
    }
}

/// What becomes of a unit in a frame: in use it has its frames anew, while it
/// loads it stays as it is, and otherwise it has one frame less and leaves with
/// the last.
pub open spec fn aged(entry: UnitEntry) -> Option<UnitEntry> {
    if entry.refs > 0 {
        Some(UnitEntry { cooldown: entry.cooldown_reset, ..entry })
    } else if entry.state is Loading {
        Some(entry)
    } else if entry.cooldown > 1 {
        Some(UnitEntry { cooldown: (entry.cooldown - 1) as u32, ..entry })
    } else {
        None
    }
}

/// What becomes of the units in a frame.
pub open spec fn all_aged(units: Map<(u64, usize), UnitEntry>) -> Map<(u64, usize), UnitEntry> {
    Map::new(
        |k: (u64, usize)| units.contains_key(k) && aged(units[k]) is Some,
        |k: (u64, usize)| aged(units[k])->0,
    )
}

/// What becomes of a unit when its loading ends.
pub open spec fn is_loaded(
    entry: UnitEntry,
    result: Result<DecodedUnit, String>,
    after: UnitEntry,
) -> bool {
    &&& after.refs == entry.refs
    &&& after.cooldown == entry.cooldown
    &&& after.cooldown_reset == entry.cooldown_reset
    &&& match result {
        Ok(unit) => after.state matches UnitState::Ready(kept) && *kept == unit,
        Err(_) => after.state is Failed,
    }
}

/// Whether a unit is there and loading.
pub open spec fn is_loading(units: Map<(u64, usize), UnitEntry>, key: (u64, usize)) -> bool {
    units.contains_key(key) && units[key].state is Loading
}

/// Whether the end of loading a unit, with `result`, leaves the units `after` and
/// gives `warning`.
pub open spec fn load_ends(
    units: Map<(u64, usize), UnitEntry>,
    scene: u64,
    file: usize,
    result: Result<DecodedUnit, String>,
    after: Map<(u64, usize), UnitEntry>,
    warning: Option<String>,
) -> bool {
    let key = (scene, file);
    if is_loading(units, key) {
        &&& after == units.insert(key, after[key])
        &&& is_loaded(units[key], result, after[key])
        &&& match result {
            Ok(_) => warning is None,
            Err(reason) => warning is Some && warning->0@ == load_failure(file as nat, reason@),
        }
    } else {
        &&& after == units
        &&& warning is None
    }
}

/// The wording of a failure to load a unit.
pub open spec fn load_failure(file: nat, reason: Seq<char>) -> Seq<char> {
    "failed to load SOG unit "@ + decimal(file) + ": "@ + reason
}

impl SogUnitCache {
    /// Ends the loading of a unit; returns the warning that goes with a failure.
    /// Nothing happens to a unit that is not loading.
    pub fn finish_load(
        &mut self,
        scene: u64,
        file: usize,
        result: Result<DecodedUnit, String>,
    ) -> (r: Option<String>)
        requires
            old(self).wf(),
            result matches Ok(unit) ==> unit.wf(),
        ensures
            final(self).wf(),
            load_ends(old(self)@, scene, file, result, final(self)@, r),
            !is_loading(old(self)@, (scene, file)) ==> *final(self) == *old(self),
    {
        let i = match self.find(scene, file) {
            Some(i) => i,
            None => {
                return None;
            },
        };
        let ghost before = self.units@;
        proof {
            lemma_at(before, i as int);
        }
        match self.units[i].entry.state {
            UnitState::Loading => {},
            _ => {
                return None;
            },
        }
        let (state, warning) = match result {
            Ok(unit) => (UnitState::Ready(Arc::new(unit)), None),
            Err(reason) => {
                let mut out = String::new();
                out.append("failed to load SOG unit ");
                push_index(&mut out, file);
                out.append(": ");
                out.append(reason.as_str());
                assert(out@ =~= load_failure(file as nat, reason@));
                (UnitState::Failed, Some(out))
            },
        };
        self.units[i].entry.state = state;
        proof {
            lemma_set(before, i as int, self.units@[i as int]);
            assert(self.units@ =~= before.update(i as int, self.units@[i as int]));
        }
        warning
    }

    /// Lets a frame pass: units that nobody uses leave when their frames are
    /// over.
    pub fn evict_units(&mut self)
        requires
            old(self).wf(),
        ensures
            final(self).wf(),
            final(self)@ == all_aged(old(self)@),
    {
        let ghost all = self.units@;
        let ghost mut seen: int = 0;
        let mut i: usize = 0;
        proof {
            assert(all.subrange(0, 0) =~= Seq::empty());
            assert(self.units@.subrange(0, 0) =~= Seq::empty());
            assert(map_of(Seq::empty()) =~= all_aged(map_of(Seq::empty())));
        }
        while i < self.units.len()
            invariant
                unique(all),
                forall|j: int|
                    0 <= j < all.len() ==> ((#[trigger] all[j]).entry.state matches
                        UnitState::Ready(unit) ==> unit.wf()),
                0 <= i <= self.units@.len(),
                0 <= seen <= all.len(),
                self.units@.len() - i == all.len() - seen,
                self.units@.subrange(i as int, self.units@.len() as int) == all.subrange(
                    seen,
                    all.len() as int,
                ),
                unique(self.units@.subrange(0, i as int)),
                forall|j: int|
                    0 <= j < i ==> ((#[trigger] self.units@[j]).entry.state matches
                        UnitState::Ready(unit) ==> unit.wf()),
                map_of(self.units@.subrange(0, i as int)) == all_aged(
                    map_of(all.subrange(0, seen)),
                ),
            decreases self.units@.len() - i,
        {
            let ghost before = self.units@;
            let ghost slot = before[i as int];
            let ghost kept = before.subrange(0, i as int);
            let ghost past = all.subrange(0, seen);
            proof {
                assert(before.subrange(i as int, before.len() as int)[0] == slot);
                assert(all[seen] == slot);
                assert(all.subrange(0, seen + 1) =~= past.push(slot));
                assert(unique(past)) by {
                    assert forall|a: int, b: int| 0 <= a < b < past.len() implies (
                    #[trigger] past[a]).key() != (#[trigger] past[b]).key() by {
                        assert(past[a] == all[a] && past[b] == all[b]);
                    }
                }
                if has_key(past, slot.key()) {
                    let j = choose|j: int| 0 <= j < past.len() && (#[trigger] past[j]).key()
                        == slot.key();
                    assert(all[j].key() != all[seen].key());
                }
                lemma_push(past, slot);
                lemma_aged_push(map_of(past), slot.key(), slot.entry);
                if has_key(kept, slot.key()) {
                    assert(map_of(kept).contains_key(slot.key()));
                }
            }
            let keep = if self.units[i].entry.refs > 0 {
                self.units[i].entry.cooldown = self.units[i].entry.cooldown_reset;
                true
            } else {
                match self.units[i].entry.state {
                    UnitState::Loading => true,
                    _ => {
                        let cooldown = self.units[i].entry.cooldown;
                        if cooldown > 1 {
                            self.units[i].entry.cooldown = cooldown - 1;
                            true
                        } else {
                            false
                        }
                    },
                }
            };
            proof {
                seen = seen + 1;
            }
            if keep {
                proof {
                    let now = self.units@[i as int];
                    assert(aged(slot.entry) == Some(now.entry));
                    assert(now.key() == slot.key());
                    lemma_push(kept, now);
                    assert(self.units@ =~= before.update(i as int, now));
                    assert(self.units@.subrange(0, i + 1) =~= kept.push(now));
                    assert(self.units@.subrange(i + 1, before.len() as int) =~= before.subrange(
                        i as int,
                        before.len() as int,
                    ).subrange(1, before.len() - i));
                    assert(all.subrange(seen, all.len() as int) =~= all.subrange(
                        seen - 1,
                        all.len() as int,
                    ).subrange(1, all.len() - seen + 1));
                }
                i = i + 1;
            } else {
                self.units.remove(i);
                proof {
                    assert(self.units@.subrange(0, i as int) =~= kept);
                    assert(self.units@.subrange(i as int, self.units@.len() as int)
                        =~= before.subrange(i as int, before.len() as int).subrange(
                        1,
                        before.len() - i,
                    ));
                    assert(all.subrange(seen, all.len() as int) =~= all.subrange(
                        seen - 1,
                        all.len() as int,
                    ).subrange(1, all.len() - seen + 1));
                }
            }
        }
        proof {
            assert(self.units@.subrange(0, i as int) =~= self.units@);
            assert(all.subrange(0, seen) =~= all);
        }
    }

    /// Whether every unit can be used `more` times more.
    pub fn has_room(&self, more: usize) -> (r: bool)
        requires
            self.wf(),
        ensures
            r == room_for(self@, more as int),
    {
        let mut i: usize = 0;
        while i < self.units.len()
            invariant
                self.wf(),
                i <= self.units@.len(),
                forall|j: int|
                    0 <= j < i ==> (#[trigger] self.units@[j]).entry.refs + more <= usize::MAX,
            decreases self.units@.len() - i,
        {
            if self.units[i].entry.refs > usize::MAX - more {
                proof {
                    lemma_at(self.units@, i as int);
                    let key = self.units@[i as int].key();
                    assert(self@.contains_key(key) && self@[key].refs + more > usize::MAX);
                }
                return false;
            }
            i = i + 1;
        }
        proof {
            assert forall|k: (u64, usize)| #[trigger] self@.contains_key(k) implies self@[k].refs
                + more <= usize::MAX by {
                let j = choose|j: int| 0 <= j < self.units@.len() && (
                #[trigger] self.units@[j]).key() == k;
                lemma_at(self.units@, j);
            }
        }
        true
    }
}

/// Every unit can be used `more` times more.
pub open spec fn room_for(units: Map<(u64, usize), UnitEntry>, more: int) -> bool {
    forall|k: (u64, usize)| #[trigger] units.contains_key(k) ==> units[k].refs + more <= usize::MAX
}

/// Letting a frame pass goes unit by unit.
proof fn lemma_aged_push(
    units: Map<(u64, usize), UnitEntry>,
    key: (u64, usize),
    entry: UnitEntry,
)
    requires
        !units.contains_key(key),
    ensures
        all_aged(units.insert(key, entry)) == (match aged(entry) {
            Some(now) => all_aged(units).insert(key, now),
            None => all_aged(units),
        }),
{
    let left = all_aged(units.insert(key, entry));
    let right = match aged(entry) {
        Some(now) => all_aged(units).insert(key, now),
        None => all_aged(units),
    };
    assert(left =~= right);
}

/// What is left of a unit after `frames` frames in which nobody uses it.
pub open spec fn after_frames(entry: UnitEntry, frames: nat) -> Option<UnitEntry>
    decreases frames,
{
    if frames == 0 {
        Some(entry)
    } else {
        match after_frames(entry, (frames - 1) as nat) {
            Some(e) => aged(e),
            None => None,
        }
    }
}

/// A unit in use never leaves, and has all its frames before it.
pub proof fn units_in_use_stay(entry: UnitEntry)
    requires
        entry.refs > 0,
    ensures
        aged(entry) matches Some(e) && e.refs == entry.refs && e.state == entry.state && e.cooldown
            == entry.cooldown_reset,
{
}

/// A unit never leaves while it loads.
pub proof fn loading_units_stay(entry: UnitEntry)
    requires
        entry.state is Loading,
    ensures
        aged(entry) matches Some(e) && e.state is Loading,
{
}

/// An idle unit stays for as many frames as its cooldown says and then leaves: a
/// unit that nobody uses is gone after `cooldown` frames, and not before.
pub proof fn idle_units_leave_after_cooldown(entry: UnitEntry, frames: nat)
    requires
        entry.refs == 0,
        !(entry.state is Loading),
        frames > 0,
    ensures
        after_frames(entry, frames) is Some <==> frames < entry.cooldown,
        after_frames(entry, frames) matches Some(e) ==> e.refs == 0 && e.state == entry.state
            && e.cooldown == entry.cooldown - frames,
    decreases frames,
{
    if frames == 1 {
        assert(after_frames(entry, 0) == Some(entry));
    } else {
        idle_units_leave_after_cooldown(entry, (frames - 1) as nat);
    }
}

/// Path of a texture of the unit whose `meta.json` is at `unit_path`: beside it.
pub open spec fn texture_path(unit_path: Seq<char>, name: Seq<char>) -> Seq<char> {
    match before_last_slash(unit_path) {
        Some(dir) => under(dir, name),
        None => name,
    }
}

/// Whether `requests` name every listed texture of the unit whose `meta.json` is at
/// `unit_path`, in order, each with its path.
pub open spec fn are_requests(
    meta: SogMeta,
    unit_path: Seq<char>,
    requests: Seq<(String, String)>,
) -> bool {
    &&& requests.len() == meta.listed().len()
    &&& forall|k: int|
        0 <= k < requests.len() ==> (#[trigger] requests[k]).0@ == meta.listed()[k]
            && requests[k].1@ == texture_path(unit_path, meta.listed()[k])
}

/// Lists the textures of the unit whose `meta.json` is at `unit_path`: the name
/// of each and the path to read it from.
pub fn unit_requests(meta: &SogMeta, unit_path: &str) -> (r: Vec<(String, String)>)
    ensures
        are_requests(*meta, unit_path@, r@),
{
    let dir = parent_dir(unit_path);
    let names = meta.texture_files();
    let ghost listed = names@.map_values(|s: &str| s@);
    let mut requests: Vec<(String, String)> = Vec::new();
    while requests.len() < names.len()
        invariant
            dir is Some <==> before_last_slash(unit_path@) is Some,
            dir matches Some(d) ==> before_last_slash(unit_path@) == Some(d@),
            listed == names@.map_values(|s: &str| s@),
            listed == meta.listed(),
            requests@.len() <= names@.len(),
            forall|k: int|
                0 <= k < requests@.len() ==> (#[trigger] requests@[k]).0@ == meta.listed()[k]
                    && requests@[k].1@ == texture_path(unit_path@, meta.listed()[k]),
        decreases names@.len() - requests@.len(),
    {
        let name = names[requests.len()];
        assert(listed[requests@.len() as int] == name@);
        let path = match &dir {
            Some(dir) => join_path(dir.as_str(), name),
            None => name.to_owned(),
        };
        requests.push((name.to_owned(), path));
    }
    requests
}

/// The file `name` among files that were read: the last of that name.
pub open spec fn file_reply(files: Seq<(String, Vec<u8>)>, name: Seq<char>) -> Result<
    Seq<u8>,
    ReadProblem<Seq<char>>,
>
    decreases files.len(),
{
    if files.len() == 0 {
        Err(ReadProblem::MissingTexture { name })
    } else if files.last().0@ == name {
        Ok(files.last().1@)
    } else {
        file_reply(files.drop_last(), name)
    }
}

/// Looks up the file `name` among files that were read.
fn look_up(files: &Vec<(String, Vec<u8>)>, name: &str) -> (r: Reply)
    ensures
        reply_view(r) == file_reply(files@, name@),
{
    let wanted = name.to_owned();
    let mut k: usize = files.len();
    assert(files@.subrange(0, k as int) =~= files@);
    while k > 0
        invariant
            k <= files@.len(),
            wanted@ == name@,
            file_reply(files@, name@) == file_reply(files@.subrange(0, k as int), name@),
        decreases k,
    {
        let ghost before = files@.subrange(0, k as int);
        assert(before.drop_last() =~= files@.subrange(0, k - 1));
        if files[k - 1].0 == wanted {
            let bytes = files[k - 1].1.clone();
            assert(bytes@ =~= before.last().1@);
            return Ok(bytes);
        }
        k = k - 1;
    }
    Err(ReadProblem::MissingTexture { name: wanted })
}

/// Whether a unit with these files assembles to `r`: its textures load from
/// them, or the first problem is put in words.
pub open spec fn assembles(
    meta: SogMeta,
    files: Seq<(String, Vec<u8>)>,
    r: Result<DecodedUnit, String>,
) -> bool {
    exists|replies: Seq<Result<Seq<u8>, ReadProblem<Seq<char>>>>, t: Result<SogTextures, ReadError>|
        #[trigger]
        meta.loads(replies, t) && replies.len() <= meta.requested().len() && (forall|k: int|
            0 <= k < replies.len() ==> #[trigger] replies[k] == file_reply(
                files,
                meta.requested()[k],
            )) && match t {
            Ok(textures) => r == Ok::<DecodedUnit, String>(DecodedUnit { meta, textures }),
            Err(e) => r is Err && r->Err_0@ == wording(e@),
        }
}

/// Assembles a unit from its files.
pub fn assemble_unit(meta: SogMeta, files: &Vec<(String, Vec<u8>)>) -> (r: Result<
    DecodedUnit,
    String,
>)
    requires
        meta.lists_textures(),
    ensures
        assembles(meta, files@, r),
        r matches Ok(unit) ==> unit.wf(),
{
    let fetch = |name: &str| -> (reply: Reply)
        ensures
            reply_view(reply) == file_reply(files@, name@),
        { look_up(files, name) };
    let loading = meta.load_textures(fetch);
    let ghost t = loading;
    let ghost replies = choose|replies: Seq<Result<Seq<u8>, ReadProblem<Seq<char>>>>| #[trigger]
        answers_all(fetch, meta.requested(), replies) && meta.loads(replies, loading);
    proof {
        assert forall|k: int| 0 <= k < replies.len() implies #[trigger] replies[k] == file_reply(
            files@,
            meta.requested()[k],
        ) by {
            assert(answers(fetch, meta.requested()[k], replies[k]));
        }
        assert(meta.loads(replies, t));
    }
    match loading {
        Ok(textures) => Ok(DecodedUnit { meta, textures }),
        Err(e) => Err(e.message()),
    }
}

/// A file is found wherever one of its name is.
proof fn lemma_file_found(files: Seq<(String, Vec<u8>)>, name: Seq<char>, k: int)
    requires
        0 <= k < files.len(),
        files[k].0@ == name,
    ensures
        file_reply(files, name) is Ok,
    decreases files.len(),
{
    if files.last().0@ != name {
        lemma_file_found(files.drop_last(), name, k);
    }
}

/// Whoever has read all listed textures can answer everything that loading asks
/// for: no texture is missing.
pub proof fn listed_files_answer_every_request(
    meta: SogMeta,
    files: Seq<(String, Vec<u8>)>,
    k: int,
)
    requires
        meta.lists_textures(),
        0 <= k < meta.requested().len(),
        forall|name: Seq<char>| #[trigger]
            meta.listed().contains(name) ==> exists|j: int|
                0 <= j < files.len() && (#[trigger] files[j]).0@ == name,
    ensures
        file_reply(files, meta.requested()[k]) is Ok,
{
    crate::io::sog::requested_names_are_listed(meta, k);
    let name = meta.requested()[k];
    assert(meta.listed().contains(name));
    let j = choose|j: int| 0 <= j < files.len() && (#[trigger] files[j]).0@ == name;
    lemma_file_found(files, name, j);
}

/// Whether `splats` are the rows `offset..offset + count` of a unit.
pub open spec fn are_rows(unit: DecodedUnit, offset: int, count: int, splats: Seq<Gaussian3d>) -> bool {
    splats.len() == count && forall|i: int|
        0 <= i < count ==> unit.textures.is_splat(unit.meta, offset + i, #[trigger] splats[i])
}

/// Whether `splats` are the rows `offset..offset + count` of a unit, padded to
/// full blocks or not.
pub open spec fn is_run(
    unit: DecodedUnit,
    offset: int,
    count: int,
    padded: bool,
    splats: Seq<Gaussian3d>,
) -> bool {
    if padded {
        exists|rows: Seq<Gaussian3d>| #[trigger]
            is_padded(rows, splats) && are_rows(unit, offset, count, rows)
    } else {
        are_rows(unit, offset, count, splats)
    }
}

/// Whether decoding the rows `offset..offset + count` of a unit gives `r`: the run,
/// or the words of a refusal where it ends after the last row.
pub open spec fn interval_decodes(
    unit: DecodedUnit,
    offset: usize,
    count: usize,
    padded: bool,
    r: Result<Vec<Gaussian3d>, String>,
) -> bool {
    if offset + count > unit.meta.count {
        r is Err && r->Err_0@ == wording(
            ReadProblem::RangeOutOfBounds {
                offset,
                end: (offset + count) as usize,
                count: unit.meta.count,
            },
        )
    } else {
        r is Ok && is_run(unit, offset as int, count as int, padded, r->Ok_0@)
    }
}

/// Decodes the run of rows `offset..offset + count` of a unit; a run that is
/// shown as a cloud of its own is padded to full blocks.
pub fn decode_interval(unit: &DecodedUnit, offset: usize, count: usize, padded: bool) -> (r: Result<
    Vec<Gaussian3d>,
    String,
>)
    requires
        unit.wf(),
        offset + count <= usize::MAX,
    ensures
        interval_decodes(*unit, offset, count, padded, r),
{
    match decode_range(&unit.meta, &unit.textures, offset, count) {
        Ok(rows) => {
            assert(are_rows(*unit, offset as int, count as int, rows@));
            if padded {
                let ghost plain = rows@;
                let blocks = pad_to_multiple_of_32(rows);
                assert(is_padded(plain, blocks@));
                Ok(blocks)
            } else {
                Ok(rows)
            }
        },
        Err(e) => Err(e.message()),
    }
}

/// Calls `std::sync::Arc::clone`. Claimed: the result points to the same unit.
#[verifier::external_body]
pub(crate) fn share(unit: &Arc<DecodedUnit>) -> (r: Arc<DecodedUnit>)
    ensures
        r == *unit,
{
    Arc::clone(unit)
}

/// Uses come and go: ending a use undoes taking it, a use makes a unit as young as
/// a new one, and neither touches any other unit.
pub proof fn uses_come_and_go(
    units: Map<(u64, usize), UnitEntry>,
    key: (u64, usize),
    other: (u64, usize),
)
    requires
        units.contains_key(key),
        units[key].refs < usize::MAX,
    ensures
        used(units[key]).refs == units[key].refs + 1,
        used(units[key]).cooldown == units[key].cooldown_reset,
        used(units[key]).state == units[key].state,
        ({
            let taken = with_use(units, key);
            let ended = without_use(taken, key);
            &&& taken[key].refs == units[key].refs + 1
            &&& taken.dom() == units.dom()
            &&& other != key && units.contains_key(other) ==> taken[other] == units[other]
            &&& ended[key].refs == units[key].refs
            &&& ended[key].state == units[key].state
            &&& ended[key].cooldown_reset == units[key].cooldown_reset
            &&& ended.dom() == units.dom()
            &&& other != key && units.contains_key(other) ==> ended[other] == units[other]
        }),
        units.contains_key(other) && units[other].refs == 0 ==> without_use(units, other)[other].refs
            == 0,
        !units.contains_key(other) ==> without_use(units, other) == units,
{
    let taken = with_use(units, key);
    assert(taken.dom() =~= units.dom());
    assert(without_use(taken, key).dom() =~= units.dom());
}

/// A frame passes for every unit by itself: one in use is as young as a new one, one
/// that loads stays as it is, and one that is neither has a frame less, or leaves
/// with its last. None comes.
pub proof fn frames_pass_for_every_unit(
    units: Map<(u64, usize), UnitEntry>,
    key: (u64, usize),
)
    ensures
        all_aged(units).contains_key(key) <==> units.contains_key(key) && (units[key].refs > 0
            || units[key].state is Loading || units[key].cooldown > 1),
        all_aged(units).contains_key(key) ==> {
            let now = all_aged(units)[key];
            &&& now.state == units[key].state
            &&& now.refs == units[key].refs
            &&& now.cooldown_reset == units[key].cooldown_reset
            &&& units[key].refs > 0 ==> now.cooldown == units[key].cooldown_reset
            &&& units[key].refs == 0 && units[key].state is Loading ==> now.cooldown
                == units[key].cooldown
            &&& units[key].refs == 0 && !(units[key].state is Loading) ==> now.cooldown
                == units[key].cooldown - 1
        },
{
}

/// Loading ends once: the unit is what was loaded, or failed with a warning that
/// names its file and the reason; its uses and its age stay, and so does every
/// other unit. Whatever comes for it afterwards changes nothing and says nothing.
pub proof fn loading_ends_once(
    units: Map<(u64, usize), UnitEntry>,
    scene: u64,
    file: usize,
    result: Result<DecodedUnit, String>,
    after: Map<(u64, usize), UnitEntry>,
    warning: Option<String>,
    again: Result<DecodedUnit, String>,
    later: Map<(u64, usize), UnitEntry>,
    more: Option<String>,
    other: (u64, usize),
)
    requires
        load_ends(units, scene, file, result, after, warning),
        load_ends(after, scene, file, again, later, more),
    ensures
        later == after,
        more is None,
        after.dom() == units.dom(),
        other != (scene, file) && units.contains_key(other) ==> after[other] == units[other],
        !(units.contains_key((scene, file)) && units[(scene, file)].state is Loading) ==> after
            == units && warning is None,
        units.contains_key((scene, file)) && units[(scene, file)].state is Loading ==> {
            let now = after[(scene, file)];
            &&& now.refs == units[(scene, file)].refs
            &&& now.cooldown == units[(scene, file)].cooldown
            &&& now.cooldown_reset == units[(scene, file)].cooldown_reset
            &&& match result {
                Ok(unit) => warning is None && (now.state matches UnitState::Ready(kept) && *kept
                    == unit),
                Err(reason) => now.state is Failed && warning is Some && starts_with(
                    warning->0@,
                    "failed to load SOG unit "@ + decimal(file as nat),
                ) && ends_with(warning->0@, reason@),
            }
        },
{
    assert(after.dom() =~= units.dom());
    if is_loading(units, (scene, file)) {
        if let Err(reason) = result {
            let text = load_failure(file as nat, reason@);
            let head = "failed to load SOG unit "@ + decimal(file as nat);
            assert(text.subrange(0, head.len() as int) =~= head);
            assert(text.subrange(text.len() - reason@.len(), text.len() as int) =~= reason@);
        }
    }
}

/// The textures of the unit at `dir/name` are asked for in order, each by the name
/// that the unit lists and from the same directory; those of a unit without a
/// directory by their names alone.
pub proof fn textures_lie_beside_their_unit(
    meta: SogMeta,
    dir: Seq<char>,
    name: Seq<char>,
    requests: Seq<(String, String)>,
    bare: Seq<(String, String)>,
    k: int,
)
    requires
        !name.contains('/'),
        are_requests(meta, under(dir, name), requests),
        are_requests(meta, name, bare),
        0 <= k < meta.listed().len(),
    ensures
        requests.len() == meta.listed().len(),
        requests[k].0@ == meta.listed()[k],
        requests[k].1@ == dir + seq!['/'] + meta.listed()[k],
        bare[k].0@ == meta.listed()[k],
        bare[k].1@ == meta.listed()[k],
{
    paths_come_apart_at_the_last_slash(dir, name);
    assert(requests[k].0@ == meta.listed()[k]);
    assert(bare[k].0@ == meta.listed()[k]);
    assert(dir.push('/') =~= dir + seq!['/']);
}

/// A texture is the last file of its name; without one it is missing, by that name.
pub proof fn textures_are_found_by_name(
    files: Seq<(String, Vec<u8>)>,
    name: Seq<char>,
    k: int,
)
    requires
        0 <= k < files.len() || files.len() == 0,
    ensures
        files.len() > 0 && files[k].0@ == name && (forall|j: int|
            k < j < files.len() ==> (#[trigger] files[j]).0@ != name) ==> file_reply(files, name)
            == Ok::<Seq<u8>, ReadProblem<Seq<char>>>(files[k].1@),
        (forall|j: int| 0 <= j < files.len() ==> (#[trigger] files[j]).0@ != name) ==> file_reply(
            files,
            name,
        ) == Err::<Seq<u8>, ReadProblem<Seq<char>>>(ReadProblem::MissingTexture { name }),
    decreases files.len(),
{
    if files.len() > 0 {
        let before = files.drop_last();
        let last = files.len() - 1;
        assert(files[last] == files.last());
        assert forall|j: int| 0 <= j < last implies #[trigger] before[j] == files[j] by {}
        if k < last {
            textures_are_found_by_name(before, name, k);
        } else {
            textures_are_found_by_name(before, name, 0);
        }
    }
}

/// An assembled unit holds the pictures of its files, each as the texture of its
/// attribute.
pub proof fn assembled_units_hold_their_files(
    meta: SogMeta,
    files: Seq<(String, Vec<u8>)>,
    unit: DecodedUnit,
)
    requires
        assembles(meta, files, Ok(unit)),
    ensures
        unit.meta == meta,
        ({
            let source = |name: Seq<char>| file_reply(files, name);
            &&& picture_in(source, meta.means.files@[0]@) == Some(unit.textures.means_l@)
            &&& picture_in(source, meta.means.files@[1]@) == Some(unit.textures.means_u@)
            &&& picture_in(source, meta.quats.files@[0]@) == Some(unit.textures.quats@)
            &&& picture_in(source, meta.scales.files@[0]@) == Some(unit.textures.scales@)
            &&& picture_in(source, meta.sh0.files@[0]@) == Some(unit.textures.sh0@)
        }),
{
    let source = |name: Seq<char>| file_reply(files, name);
    let (replies, t) = choose|
        replies: Seq<Result<Seq<u8>, ReadProblem<Seq<char>>>>,
        t: Result<SogTextures, ReadError>,
    | #[trigger]
        meta.loads(replies, t) && replies.len() <= meta.requested().len() && (forall|k: int|
            0 <= k < replies.len() ==> #[trigger] replies[k] == file_reply(
                files,
                meta.requested()[k],
            )) && match t {
            Ok(textures) => Ok::<DecodedUnit, String>(unit) == Ok::<DecodedUnit, String>(
                DecodedUnit { meta, textures },
            ),
            Err(e) => false,
        };
    assert forall|k: int| 0 <= k < replies.len() implies #[trigger] replies[k] == source(
        meta.requested()[k],
    ) by {}
    textures_are_those_of_their_files(meta, source, replies, t->Ok_0);
}

/// A run is rows of its unit: row `i` of the run is row `offset + i` of the unit, and
/// what pads it is invisible. Only a run that ends after the last row is refused.
pub proof fn runs_are_rows_of_their_unit(
    unit: DecodedUnit,
    offset: usize,
    count: usize,
    padded: bool,
    r: Result<Vec<Gaussian3d>, String>,
    i: int,
    axis: int,
    code: u16,
)
    requires
        interval_decodes(unit, offset, count, padded, r),
        0 <= i,
        0 <= axis < 3,
        unit.textures.means_l@[4 * (offset + i) + axis] == code % 256,
        unit.textures.means_u@[4 * (offset + i) + axis] == code / 256,
    ensures
        r is Ok <==> offset + count <= unit.meta.count,
        r matches Ok(splats) ==> {
            &&& !padded ==> splats@.len() == count
            &&& padded ==> splats@.len() % 32 == 0 && count <= splats@.len() < count + 32
            &&& i < count ==> unit.textures.is_splat(unit.meta, offset + i, splats@[i])
            &&& i < count ==> (splats@[i].position_visibility.position matches Some(position)
                && position@[axis] == code)
            &&& count <= i < splats@.len() ==> splats@[i].position_visibility.position is None
                && splats@[i].scale_opacity.opacity == 0
        },
{
    if let Ok(splats) = r {
        let rows = if padded {
            choose|rows: Seq<Gaussian3d>| #[trigger]
                is_padded(rows, splats@) && are_rows(unit, offset as int, count as int, rows)
        } else {
            splats@
        };
        if padded {
            padding_shows_nothing(rows, splats@, i);
        }
        if i < count {
            assert(unit.textures.is_splat(unit.meta, offset + i, rows[i]));
            let position = splats@[i].position_visibility.position->0;
            assert(position[axis] == code16(
                unit.textures.means_l[4 * (offset + i) + axis],
                unit.textures.means_u[4 * (offset + i) + axis],
            ));
        }
    }
}

/// Runs that follow each other make the run of both.
pub proof fn adjacent_runs_join(
    unit: DecodedUnit,
    offset: int,
    first: int,
    second: int,
    a: Seq<Gaussian3d>,
    b: Seq<Gaussian3d>,
)
    requires
        0 <= first,
        0 <= second,
        is_run(unit, offset, first, false, a),
        is_run(unit, offset + first, second, false, b),
    ensures
        is_run(unit, offset, first + second, false, a + b),
{
    let both = a + b;
    assert forall|i: int| 0 <= i < first + second implies unit.textures.is_splat(
        unit.meta,
        offset + i,
        #[trigger] both[i],
    ) by {
        if i < first {
            assert(unit.textures.is_splat(unit.meta, offset + i, a[i]));
        } else {
            assert(unit.textures.is_splat(unit.meta, offset + first + (i - first), b[i - first]));
        }
    }
}

/// A unit that begins to load is there, loading, with no use and with the frames that
/// it is given; every other unit stays as it was.
pub proof fn loading_adds_one_unit(
    units: Map<(u64, usize), UnitEntry>,
    key: (u64, usize),
    cooldown: u32,
    other: (u64, usize),
)
    ensures
        ({
            let after = with_load(units, key, cooldown);
            &&& after.contains_key(key)
            &&& after[key].state is Loading
            &&& after[key].refs == 0
            &&& after[key].cooldown == cooldown
            &&& after[key].cooldown_reset == cooldown
            &&& other != key ==> (after.contains_key(other) <==> units.contains_key(other))
            &&& other != key && units.contains_key(other) ==> after[other] == units[other]
        }),
{
}

/// Units are counted while they are loading or decoded: one that begins to load counts
/// from then on, one that is decoded still does, and one that failed does not.
pub proof fn failed_units_do_not_count(
    units: Map<(u64, usize), UnitEntry>,
    scene: u64,
    file: usize,
    cooldown: u32,
    result: Result<DecodedUnit, String>,
    after: Map<(u64, usize), UnitEntry>,
    warning: Option<String>,
)
    requires
        units.dom().finite(),
        !units.contains_key((scene, file)),
        load_ends(
            with_load(units, (scene, file), cooldown),
            scene,
            file,
            result,
            after,
            warning,
        ),
    ensures
        live_count(Map::empty()) == 0,
        live_count(with_load(units, (scene, file), cooldown)) == live_count(units) + 1,
        live_count(after) == (if result is Ok {
            live_count(units) + 1
        } else {
            live_count(units)
        }),
{
    let key = (scene, file);
    let loading = with_load(units, key, cooldown);
    assert(resident(Map::empty()) =~= Set::empty());
    assert(resident(units).finite()) by {
        vstd::set_lib::lemma_len_subset(resident(units), units.dom());
    }
    assert(resident(loading) =~= resident(units).insert(key));
    if result is Ok {
        assert(resident(after) =~= resident(units).insert(key));
    } else {
        assert(resident(after) =~= resident(units));
    }
}

} // verus!
