//! Scenes of many levels of detail (`lod-meta.json`).
//!
//! A scene is a tree of boxes. Each leaf names, for every level of detail that
//! it has, a contiguous run of rows inside one unit; only the leaves matter once
//! a scene is read.

use vstd::prelude::*;
use vstd::string::*;

use crate::error::{ReadError, ReadProblem};
use crate::float_bits::FloatBits;
use crate::io::sog::texts;
use crate::text::{
    before_last_slash, index_value, join_path, parent_dir, parse_index,
    paths_come_apart_at_the_last_slash, under,
};

verus! {

/// The box of a node, as written.
#[derive(Clone, Copy, Debug)]
pub struct RawBound {
    pub min: [FloatBits; 3],
    pub max: [FloatBits; 3],
}

/// A leaf's run of rows at one level, as written.
#[derive(Clone, Copy, Debug, PartialEq, Eq, Structural)]
pub struct RawLod {
    pub file: usize,
    pub offset: usize,
    pub count: usize,
}

/// A node of the tree, as written. A node with children is an inner one,
/// whatever else it has.
#[derive(Debug)]
pub struct RawNode {
    pub bound: RawBound,
    pub children: Option<Vec<RawNode>>,
    /// runs by the text of their level
    pub lods: Option<Vec<(String, RawLod)>>,
}

/// A scene's `lod-meta.json`, as written.
#[derive(Debug)]
pub struct RawLodMeta {
    pub version: u32,
    pub count: usize,
    pub counts: Vec<usize>,
    pub lod_levels: usize,
    pub filenames: Vec<String>,
    pub tree: RawNode,
}

/// A contiguous run of rows inside the unit `filenames[file]` of a scene.
#[derive(Clone, Copy, Debug, PartialEq, Eq, Structural)]
pub struct LodInterval {
    pub file: usize,
    pub offset: usize,
    pub count: usize,
}

/// A leaf: its box and one optional run per level of detail.
#[derive(Clone, Debug)]
pub struct LodLeaf {
    pub min: [FloatBits; 3],
    pub max: [FloatBits; 3],
    pub lods: Vec<Option<LodInterval>>,
}

/// A leaf, its runs as a sequence.
pub struct LeafView {
    pub min: [FloatBits; 3],
    pub max: [FloatBits; 3],
    pub lods: Seq<Option<LodInterval>>,
}

impl View for LodLeaf {
    type V = LeafView;

    open spec fn view(&self) -> LeafView {
        LeafView { min: self.min, max: self.max, lods: self.lods@ }
    }
}

/// A scene: its units and its leaves.
#[derive(Clone, Debug)]
pub struct GaussianLodScene {
    pub lod_levels: usize,
    /// splats per level
    pub counts: Vec<usize>,
    /// unit paths relative to `lod-meta.json`
    pub filenames: Vec<String>,
    pub leaves: Vec<LodLeaf>,
    /// directory of `lod-meta.json`
    pub base_dir: String,
}

/// A scene over sequences.
pub struct SceneView {
    pub lod_levels: nat,
    pub counts: Seq<usize>,
    pub filenames: Seq<Seq<char>>,
    pub leaves: Seq<LeafView>,
    pub base_dir: Seq<char>,
}

/// The views of a list of leaves.
pub open spec fn leaf_views(leaves: Seq<LodLeaf>) -> Seq<LeafView> {
    leaves.map_values(|leaf: LodLeaf| leaf@)
}

impl View for GaussianLodScene {
    type V = SceneView;

    open spec fn view(&self) -> SceneView {
        SceneView {
            lod_levels: self.lod_levels as nat,
            counts: self.counts@,
            filenames: texts(self.filenames@),
            leaves: leaf_views(self.leaves@),
            base_dir: self.base_dir@,
        }
    }
}

/// The first level from `level` on that has a run.
pub open spec fn first_from(lods: Seq<Option<LodInterval>>, level: int) -> Option<int>
    decreases lods.len() - level,
{
    if level >= lods.len() {
        None
    } else if lods[level] is Some {
        Some(level)
    } else {
        first_from(lods, level + 1)
    }
}

/// The last level before `level` that has a run.
pub open spec fn last_before(lods: Seq<Option<LodInterval>>, level: int) -> Option<int>
    decreases level,
{
    if level <= 0 {
        None
    } else if lods[level - 1] is Some {
        Some(level - 1)
    } else {
        last_before(lods, level - 1)
    }
}

/// The level to show for a desired one: itself, else the nearest coarser level,
/// else the nearest finer one. A level past the last stands for the last.
pub open spec fn nearest(lods: Seq<Option<LodInterval>>, desired: int) -> Option<int> {
    let level = if desired < lods.len() {
        desired
    } else if lods.len() == 0 {
        0
    } else {
        lods.len() - 1
    };
    match first_from(lods, level) {
        Some(l) => Some(l),
        None => last_before(lods, level),
    }
}

impl LodLeaf {
    /// The level to show for a desired one: itself if the leaf has it, else the
    /// nearest coarser level, else the nearest finer one.
    pub fn nearest_available(&self, desired: usize) -> (r: Option<usize>)
        ensures
            r is Some <==> nearest(self.lods@, desired as int) is Some,
            r matches Some(level) ==> nearest(self.lods@, desired as int) == Some(level as int),
    {
        let length = self.lods.len();
        if length == 0 {
            return None;
        }
        let start: usize = if desired < length {
            desired
        } else {
            length - 1
        };
        let mut level: usize = start;
        while level < length
            invariant
                start <= level <= length,
                length == self.lods@.len(),
                first_from(self.lods@, start as int) == first_from(self.lods@, level as int),
                start == (if desired < length {
                    desired as int
                } else {
                    length - 1
                }),
            decreases length - level,
        {
            if self.lods[level].is_some() {
                return Some(level);
            }
            level = level + 1;
        }
        let mut finer: usize = start;
        while finer > 0
            invariant
                finer <= start < length,
                length == self.lods@.len(),
                first_from(self.lods@, start as int) is None,
                last_before(self.lods@, start as int) == last_before(self.lods@, finer as int),
                start == (if desired < length {
                    desired as int
                } else {
                    length - 1
                }),
            decreases finer,
        {
            if self.lods[finer - 1].is_some() {
                return Some(finer - 1);
            }
            finer = finer - 1;
        }
        None
    }
}

/// What `first_from` finds is a level with a run, and the first.
proof fn lemma_first_from(lods: Seq<Option<LodInterval>>, level: int)
    requires
        0 <= level,
    ensures
        match first_from(lods, level) {
            Some(l) => level <= l < lods.len() && lods[l] is Some && forall|k: int|
                level <= k < l ==> (#[trigger] lods[k]) is None,
            None => forall|k: int| level <= k < lods.len() ==> (#[trigger] lods[k]) is None,
        },
    decreases lods.len() - level,
{
    if level < lods.len() && lods[level] is None {
        lemma_first_from(lods, level + 1);
    }
}

/// What `last_before` finds is a level with a run, and the last.
pub proof fn lemma_last_before(lods: Seq<Option<LodInterval>>, level: int)
    requires
        level <= lods.len(),
    ensures
        match last_before(lods, level) {
            Some(l) => 0 <= l < level && lods[l] is Some && forall|k: int|
                l < k < level ==> (#[trigger] lods[k]) is None,
            None => forall|k: int| 0 <= k < level ==> (#[trigger] lods[k]) is None,
        },
    decreases level,
{
    if level > 0 && lods[level - 1] is None {
        lemma_last_before(lods, level - 1);
    }
}

/// A leaf with any run at all shows one for every wish: the wished level if it
/// has it, else a coarser one with nothing in between, else a finer one with
/// nothing in between and nothing coarser.
pub proof fn nearest_level_is_nearest(lods: Seq<Option<LodInterval>>, desired: int)
    requires
        0 <= desired,
    ensures
        desired < lods.len() && lods[desired] is Some ==> nearest(lods, desired) == Some(desired),
        match nearest(lods, desired) {
            Some(l) => {
                &&& 0 <= l < lods.len()
                &&& lods[l] is Some
                &&& l >= desired ==> forall|k: int| desired <= k < l ==> (#[trigger] lods[k]) is None
                &&& l < desired ==> forall|k: int| l < k < lods.len() ==> (#[trigger] lods[k]) is None
            },
            None => forall|k: int| 0 <= k < lods.len() ==> (#[trigger] lods[k]) is None,
        },
{
    if lods.len() > 0 {
        let level = if desired < lods.len() {
            desired
        } else {
            lods.len() - 1
        };
        lemma_first_from(lods, level);
        lemma_last_before(lods, level);
    }
}

/// A run as it is kept.
pub open spec fn interval(raw: RawLod) -> LodInterval {
    LodInterval { file: raw.file, offset: raw.offset, count: raw.count }
}

/// The run of a level: that of the last entry that writes this level and is not
/// empty.
pub open spec fn level_interval(entries: Seq<(String, RawLod)>, level: int) -> Option<LodInterval>
    decreases entries.len(),
{
    if entries.len() == 0 {
        None
    } else {
        let (key, raw) = entries.last();
        if raw.count > 0 && level >= 0 && index_value(key@) == Some(level as nat) {
            Some(interval(raw))
        } else {
            level_interval(entries.drop_last(), level)
        }
    }
}

/// The runs of a node.
pub open spec fn node_lods(node: RawNode) -> Seq<(String, RawLod)> {
    match node.lods {
        Some(entries) => entries@,
        None => Seq::empty(),
    }
}

/// A node without children as a leaf.
pub open spec fn leaf_of(node: RawNode, levels: nat) -> LeafView {
    LeafView {
        min: node.bound.min,
        max: node.bound.max,
        lods: Seq::new(levels, |level: int| level_interval(node_lods(node), level)),
    }
}

/// The leaves under a node, from left to right.
pub open spec fn leaves_of(node: RawNode, levels: nat) -> Seq<LeafView>
    decreases node, 0nat,
{
    match node.children {
        Some(children) => leaves_of_first(children@, children@.len(), levels),
        None => seq![leaf_of(node, levels)],
    }
}

/// The leaves under the first `k` nodes.
pub open spec fn leaves_of_first(nodes: Seq<RawNode>, k: nat, levels: nat) -> Seq<LeafView>
    decreases nodes, k,
{
    if k == 0 || k > nodes.len() {
        Seq::empty()
    } else {
        leaves_of_first(nodes, (k - 1) as nat, levels) + leaves_of(nodes[k - 1], levels)
    }
}

/// Reads the runs of a leaf.
fn read_lods(entries: &Vec<(String, RawLod)>, lod_levels: usize) -> (r: Vec<Option<LodInterval>>)
    ensures
        r@ == Seq::new(lod_levels as nat, |level: int| level_interval(entries@, level)),
{
    let mut lods: Vec<Option<LodInterval>> = no_lods(lod_levels);
    let mut k: usize = 0;
    assert(entries@.subrange(0, 0) =~= Seq::empty());
    while k < entries.len()
        invariant
            k <= entries@.len(),
            lods@ =~= Seq::new(
                lod_levels as nat,
                |level: int| level_interval(entries@.subrange(0, k as int), level),
            ),
        decreases entries@.len() - k,
    {
        let ghost before = entries@.subrange(0, k as int);
        let ghost after = entries@.subrange(0, k + 1);
        assert(after.drop_last() =~= before);
        assert(after.last() == entries@[k as int]);
        let (key, raw) = &entries[k];
        let read = parse_index(key.as_str());
        match read {
            Some(level) => if level < lod_levels && raw.count > 0 {
                lods.set(
                    level,
                    Some(LodInterval { file: raw.file, offset: raw.offset, count: raw.count }),
                );
            },
            None => {},
        }
        k = k + 1;
    }
    assert(entries@.subrange(0, k as int) =~= entries@);
    lods
}

/// No runs at any of the levels.
fn no_lods(lod_levels: usize) -> (r: Vec<Option<LodInterval>>)
    ensures
        r@.len() == lod_levels,
        forall|level: int| 0 <= level < lod_levels ==> (#[trigger] r@[level]) is None,
{
    let mut lods: Vec<Option<LodInterval>> = Vec::with_capacity(lod_levels);
    let mut k: usize = 0;
    while k < lod_levels
        invariant
            k <= lod_levels,
            lods@.len() == k,
            forall|level: int| 0 <= level < k ==> (#[trigger] lods@[level]) is None,
        decreases lod_levels - k,
    {
        lods.push(None);
        k = k + 1;
    }
    lods
}

/// Appends the leaves under a node, from left to right.
fn flatten_leaves(node: &RawNode, lod_levels: usize, leaves: &mut Vec<LodLeaf>)
    ensures
        leaf_views(final(leaves)@) == leaf_views(old(leaves)@) + leaves_of(
            *node,
            lod_levels as nat,
        ),
    decreases node,
{
    if let Some(children) = &node.children {
        let mut k: usize = 0;
        while k < children.len()
            invariant
                k <= children@.len(),
                node.children == Some(*children),
                leaf_views(leaves@) =~= leaf_views(old(leaves)@) + leaves_of_first(
                    children@,
                    k as nat,
                    lod_levels as nat,
                ),
            decreases children@.len() - k,
        {
            assert(decreases_to!(*node => node.children->0@[k as int]));
            flatten_leaves(&children[k], lod_levels, leaves);
            k = k + 1;
        }
        return;
    }
    let lods = match &node.lods {
        Some(entries) => read_lods(entries, lod_levels),
        None => no_lods(lod_levels),
    };
    assert(lods@ =~= leaf_of(*node, lod_levels as nat).lods);
    let ghost before = leaves@;
    leaves.push(LodLeaf { min: node.bound.min, max: node.bound.max, lods });
    assert(leaf_views(leaves@) =~= leaf_views(before) + leaves_of(*node, lod_levels as nat));
}

/// What a parsed `lod-meta.json` amounts to: only version 1 is read. Beside the
/// scene stands the number of splats that the file claims.
pub open spec fn scene_of(parsed: Result<RawLodMeta, String>) -> Result<
    (SceneView, usize),
    ReadProblem<Seq<char>>,
> {
    match parsed {
        Err(reason) => Err(ReadProblem::LodMetaParse { reason: reason@ }),
        Ok(raw) => if raw.version != 1 {
            Err(ReadProblem::LodMetaVersion { version: raw.version })
        } else {
            Ok(
                (
                    SceneView {
                        lod_levels: raw.lod_levels as nat,
                        counts: raw.counts@,
                        filenames: texts(raw.filenames@),
                        leaves: leaves_of(raw.tree, raw.lod_levels as nat),
                        base_dir: Seq::empty(),
                    },
                    raw.count,
                ),
            )
        },
    }
}

/// The view of a scene that was read.
pub open spec fn read_view(r: Result<(GaussianLodScene, usize), ReadError>) -> Result<
    (SceneView, usize),
    ReadProblem<Seq<char>>,
> {
    match r {
        Ok((scene, count)) => Ok((scene@, count)),
        Err(e) => Err(e@),
    }
}

/// Makes a scene of a parsed `lod-meta.json` of version 1. The scene's
/// directory is still to be set.
pub fn build_scene(parsed: Result<RawLodMeta, String>) -> (r: Result<
    (GaussianLodScene, usize),
    ReadError,
>)
    ensures
        read_view(r) == scene_of(parsed),
{
    let raw = match parsed {
        Ok(raw) => raw,
        Err(reason) => {
            return Err(ReadProblem::LodMetaParse { reason });
        },
    };
    if raw.version != 1 {
        return Err(ReadProblem::LodMetaVersion { version: raw.version });
    }
    let mut leaves: Vec<LodLeaf> = Vec::new();
    flatten_leaves(&raw.tree, raw.lod_levels, &mut leaves);
    let scene = GaussianLodScene {
        lod_levels: raw.lod_levels,
        counts: raw.counts,
        filenames: raw.filenames,
        leaves,
        base_dir: String::new(),
    };
    assert(scene@.leaves =~= leaves_of(raw.tree, raw.lod_levels as nat));
    assert(scene@.base_dir =~= Seq::empty());
    Ok((scene, raw.count))
}

/// Reads `lod-meta.json`: `parse` turns its bytes into a description of a
/// scene, of which only version 1 is accepted.
pub fn parse_lod_meta<P: FnOnce(&[u8]) -> Result<RawLodMeta, String>>(bytes: &[u8], parse: P) -> (r:
    Result<(GaussianLodScene, usize), ReadError>)
    requires
        parse.requires((bytes,)),
    ensures
        exists|parsed: Result<RawLodMeta, String>| #[trigger]
            parse.ensures((bytes,), parsed) && read_view(r) == scene_of(parsed),
{
    build_scene(parse(bytes))
}

/// The directory of the file at `path`: empty for a path without a slash.
pub open spec fn directory(path: Seq<char>) -> Seq<char> {
    match before_last_slash(path) {
        Some(dir) => dir,
        None => Seq::empty(),
    }
}

/// A scene as read from the file at `path`.
pub open spec fn scene_at(scene: SceneView, path: Seq<char>) -> SceneView {
    SceneView { base_dir: directory(path), ..scene }
}

impl SceneView {
    /// Path of a file that is given relative to the scene.
    pub open spec fn path_of(self, relative: Seq<char>) -> Seq<char> {
        if self.base_dir.len() == 0 {
            relative
        } else {
            under(self.base_dir, relative)
        }
    }
}

impl GaussianLodScene {
    /// Path of a file that is given relative to the scene.
    pub fn unit_path(&self, relative: &str) -> (r: String)
        ensures
            r@ == self@.path_of(relative@),
    {
        if self.base_dir.as_str().unicode_len() == 0 {
            relative.to_owned()
        } else {
            join_path(self.base_dir.as_str(), relative)
        }
    }

    /// The scene as read from the file at `path`.
    pub fn located(self, path: &str) -> (r: GaussianLodScene)
        ensures
            r@ == scene_at(self@, path@),
    {
        let base_dir = match parent_dir(path) {
            Some(dir) => dir,
            None => String::new(),
        };
        assert(base_dir@ =~= directory(path@));
        GaussianLodScene { base_dir, ..self }
    }
}

/// Reads the scene in the `lod-meta.json` at `path`.
pub fn load_scene<P: FnOnce(&[u8]) -> Result<RawLodMeta, String>>(
    bytes: &[u8],
    path: &str,
    parse: P,
) -> (r: Result<GaussianLodScene, ReadError>)
    requires
        parse.requires((bytes,)),
    ensures
        exists|parsed: Result<RawLodMeta, String>| #[trigger]
            parse.ensures((bytes,), parsed) && match scene_of(parsed) {
                Ok((scene, _)) => r is Ok && r->Ok_0@ == scene_at(scene, path@),
                Err(e) => r is Err && r->Err_0@ == e,
            },
{
    match parse_lod_meta(bytes, parse) {
        Ok((scene, _)) => Ok(scene.located(path)),
        Err(e) => Err(e),
    }
}

/// Every leaf that is read has an entry for each level, and no empty run.
pub proof fn leaves_have_every_level(node: RawNode, levels: nat, i: int, level: int)
    requires
        0 <= i < leaves_of(node, levels).len(),
    ensures
        leaves_of(node, levels)[i].lods.len() == levels,
        0 <= level < levels ==> (leaves_of(node, levels)[i].lods[level] matches Some(run)
            ==> run.count > 0),
    decreases node, 0nat,
{
    match node.children {
        Some(children) => {
            lemma_first_leaves(children@, children@.len(), levels, i, level);
        },
        None => {
            lemma_run_not_empty(node_lods(node), level);
        },
    }
}

/// The same of the leaves under the first `k` nodes.
proof fn lemma_first_leaves(nodes: Seq<RawNode>, k: nat, levels: nat, i: int, level: int)
    requires
        k <= nodes.len(),
        0 <= i < leaves_of_first(nodes, k, levels).len(),
    ensures
        leaves_of_first(nodes, k, levels)[i].lods.len() == levels,
        0 <= level < levels ==> (leaves_of_first(nodes, k, levels)[i].lods[level] matches Some(run)
            ==> run.count > 0),
    decreases nodes, k,
{
    if k > 0 {
        let before = leaves_of_first(nodes, (k - 1) as nat, levels);
        if i < before.len() {
            lemma_first_leaves(nodes, (k - 1) as nat, levels, i, level);
        } else {
            leaves_have_every_level(nodes[k - 1], levels, i - before.len(), level);
        }
    }
}

/// A level's run is not empty.
proof fn lemma_run_not_empty(entries: Seq<(String, RawLod)>, level: int)
    ensures
        level_interval(entries, level) matches Some(run) ==> run.count > 0,
    decreases entries.len(),
{
    if entries.len() > 0 {
        lemma_run_not_empty(entries.drop_last(), level);
    }
}

/// A unit listed in the scene at `dir/name` lies under `dir`.
pub proof fn units_lie_beside_their_scene(scene: SceneView, dir: Seq<char>, name: Seq<char>, file:
    Seq<char>)
    requires
        dir.len() > 0,
        !name.contains('/'),
        scene.base_dir == directory(under(dir, name)),
    ensures
        scene.path_of(file) == under(dir, file),
{
    lemma_before_slash(dir, name);
}

/// What comes before the last slash of `dir/name`.
proof fn lemma_before_slash(dir: Seq<char>, name: Seq<char>)
    requires
        !name.contains('/'),
    ensures
        before_last_slash(under(dir, name)) == Some(dir),
    decreases name.len(),
{
    let path = under(dir, name);
    if name.len() == 0 {
        assert(path.drop_last() =~= dir);
    } else {
        assert(path.last() == name.last());
        assert(name[name.len() - 1] != '/') by {
            assert(!name.contains('/'));
        }
        assert(path.drop_last() =~= under(dir, name.drop_last()));
        assert forall|k: int| 0 <= k < name.drop_last().len() implies name.drop_last()[k]
            != '/' by {
            assert(name[k] == name.drop_last()[k]);
        }
        lemma_before_slash(dir, name.drop_last());
    }
}

/// The node that is reached from `node` along a path of child indices.
pub open spec fn node_at(node: RawNode, path: Seq<int>) -> Option<RawNode>
    decreases path.len(),
{
    if path.len() == 0 {
        Some(node)
    } else {
        match node.children {
            Some(children) => if 0 <= path[0] < children@.len() {
                node_at(children@[path[0]], path.drop_first())
            } else {
                None
            },
            None => None,
        }
    }
}

/// Nodes without children at or under a node.
pub open spec fn ends_under(node: RawNode) -> nat
    decreases node, 0nat,
{
    match node.children {
        Some(children) => ends_under_first(children@, children@.len()),
        None => 1,
    }
}

/// Nodes without children at or under the first `k` nodes.
pub open spec fn ends_under_first(nodes: Seq<RawNode>, k: nat) -> nat
    decreases nodes, k,
{
    if k == 0 || k > nodes.len() {
        0
    } else {
        ends_under_first(nodes, (k - 1) as nat) + ends_under(nodes[k - 1])
    }
}

/// How many nodes without children come before the end of a path: at each step,
/// those under the earlier children.
pub open spec fn ends_before(node: RawNode, path: Seq<int>) -> nat
    decreases path.len(),
{
    if path.len() == 0 {
        0
    } else {
        let children = node.children->0@;
        ends_under_first(children, path[0] as nat) + ends_before(
            children[path[0]],
            path.drop_first(),
        )
    }
}

/// One path comes before another: they part at some step, where the first takes
/// the earlier child.
pub open spec fn path_before(a: Seq<int>, b: Seq<int>) -> bool
    decreases a.len(),
{
    a.len() > 0 && b.len() > 0 && (a[0] < b[0] || (a[0] == b[0] && path_before(
        a.drop_first(),
        b.drop_first(),
    )))
}

/// A scene has as many leaves as its tree has nodes without children, at whatever
/// depth: none is lost, and none is added.
pub proof fn no_leaf_is_lost(node: RawNode, levels: nat)
    ensures
        leaves_of(node, levels).len() == ends_under(node),
    decreases node, 0nat,
{
    match node.children {
        Some(children) => {
            lemma_first_count(children@, children@.len(), levels);
        },
        None => {},
    }
}

/// The same of the first `k` nodes.
proof fn lemma_first_count(nodes: Seq<RawNode>, k: nat, levels: nat)
    requires
        k <= nodes.len(),
    ensures
        leaves_of_first(nodes, k, levels).len() == ends_under_first(nodes, k),
    decreases nodes, k,
{
    if k > 0 {
        lemma_first_count(nodes, (k - 1) as nat, levels);
        no_leaf_is_lost(nodes[k - 1], levels);
    }
}

/// The leaves of a node come together, after those of the nodes before it.
proof fn lemma_leaves_of_one(nodes: Seq<RawNode>, c: int, k: nat, levels: nat)
    requires
        0 <= c < k <= nodes.len(),
    ensures
        ends_under_first(nodes, c as nat) + ends_under(nodes[c]) <= leaves_of_first(
            nodes,
            k,
            levels,
        ).len(),
        forall|j: int|
            0 <= j < ends_under(nodes[c]) ==> leaves_of_first(nodes, k, levels)[ends_under_first(
                nodes,
                c as nat,
            ) + j] == #[trigger] leaves_of(nodes[c], levels)[j],
    decreases k,
{
    lemma_first_count(nodes, (k - 1) as nat, levels);
    no_leaf_is_lost(nodes[k - 1], levels);
    if c < k - 1 {
        lemma_leaves_of_one(nodes, c, (k - 1) as nat, levels);
    }
}

/// Every node without children, reached by whatever path, is a leaf: it stands
/// after as many leaves as there are such nodes before it, with its box and with
/// the run of each level.
pub proof fn every_end_is_a_leaf(node: RawNode, levels: nat, path: Seq<int>)
    requires
        node_at(node, path) matches Some(end) && end.children is None,
    ensures
        ends_before(node, path) < leaves_of(node, levels).len(),
        ({
            let end = node_at(node, path)->0;
            let leaf = leaves_of(node, levels)[ends_before(node, path) as int];
            &&& leaf.min == end.bound.min
            &&& leaf.max == end.bound.max
            &&& leaf.lods.len() == levels
            &&& forall|level: int|
                0 <= level < levels ==> #[trigger] leaf.lods[level] == (match end.lods {
                    Some(entries) => level_interval(entries@, level),
                    None => None,
                })
        }),
    decreases path.len(),
{
    if path.len() == 0 {
        let leaf = leaf_of(node, levels);
        assert(leaves_of(node, levels)[0] == leaf);
        assert forall|level: int| 0 <= level < levels implies #[trigger] leaf.lods[level] == (
        match node.lods {
            Some(entries) => level_interval(entries@, level),
            None => None,
        }) by {
            if node.lods is None {
                assert(level_interval(Seq::empty(), level) is None);
            }
        }
    } else {
        let children = node.children->0@;
        let child = children[path[0]];
        every_end_is_a_leaf(child, levels, path.drop_first());
        no_leaf_is_lost(child, levels);
        lemma_leaves_of_one(children, path[0], children.len(), levels);
        let at = ends_before(child, path.drop_first()) as int;
        assert(leaves_of(child, levels)[at] == leaves_of_first(
            children,
            children.len(),
            levels,
        )[ends_under_first(children, path[0] as nat) + at]);
    }
}

/// Nothing else is a leaf: every leaf stands for a node without children, which
/// some path reaches.
pub proof fn every_leaf_is_an_end(node: RawNode, levels: nat, i: int) -> (path: Seq<int>)
    requires
        0 <= i < leaves_of(node, levels).len(),
    ensures
        node_at(node, path) matches Some(end) && end.children is None,
        ends_before(node, path) == i,
    decreases node, 0nat,
{
    match node.children {
        Some(children) => {
            let (c, path) = lemma_leaf_has_path(children@, children@.len(), levels, i);
            let whole = seq![c] + path;
            assert(whole.drop_first() =~= path);
            whole
        },
        None => Seq::empty(),
    }
}

/// The same of the first `k` nodes: the node, and the path from it.
proof fn lemma_leaf_has_path(nodes: Seq<RawNode>, k: nat, levels: nat, i: int) -> (r: (
    int,
    Seq<int>,
))
    requires
        k <= nodes.len(),
        0 <= i < leaves_of_first(nodes, k, levels).len(),
    ensures
        0 <= r.0 < k,
        node_at(nodes[r.0], r.1) matches Some(end) && end.children is None,
        ends_under_first(nodes, r.0 as nat) + ends_before(nodes[r.0], r.1) == i,
    decreases nodes, k,
{
    let before = leaves_of_first(nodes, (k - 1) as nat, levels);
    if i < before.len() {
        lemma_leaf_has_path(nodes, (k - 1) as nat, levels, i)
    } else {
        lemma_first_count(nodes, (k - 1) as nat, levels);
        let path = every_leaf_is_an_end(nodes[k - 1], levels, i - before.len());
        (k - 1, path)
    }
}

/// Earlier nodes count less.
proof fn lemma_ends_grow(nodes: Seq<RawNode>, c: int, d: int)
    requires
        0 <= c < d <= nodes.len(),
    ensures
        ends_under_first(nodes, c as nat) + ends_under(nodes[c]) <= ends_under_first(
            nodes,
            d as nat,
        ),
    decreases d,
{
    if c < d - 1 {
        lemma_ends_grow(nodes, c, d - 1);
    }
}

/// Leaves are in the order of their paths: of two nodes without children, the one
/// whose path takes the earlier child where the two part comes first.
pub proof fn leaves_are_in_order_of_paths(node: RawNode, levels: nat, a: Seq<int>, b: Seq<int>)
    requires
        node_at(node, a) matches Some(end) && end.children is None,
        node_at(node, b) matches Some(end) && end.children is None,
        path_before(a, b),
    ensures
        ends_before(node, a) < ends_before(node, b),
    decreases a.len(),
{
    let children = node.children->0@;
    if a[0] == b[0] {
        leaves_are_in_order_of_paths(
            children[a[0]],
            levels,
            a.drop_first(),
            b.drop_first(),
        );
    } else {
        every_end_is_a_leaf(children[a[0]], levels, a.drop_first());
        no_leaf_is_lost(children[a[0]], levels);
        lemma_ends_grow(children, a[0], b[0]);
    }
}

/// The run of a level is that of the last entry that writes the level and is not
/// empty, with its unit, its first row and its number of rows; a level that no
/// such entry writes has none.
pub proof fn levels_have_their_last_run(entries: Seq<(String, RawLod)>, level: nat, k: int)
    requires
        0 <= k < entries.len(),
    ensures
        index_value(entries[k].0@) == Some(level) && entries[k].1.count > 0 && (forall|j: int|
            k < j < entries.len() ==> !(index_value((#[trigger] entries[j]).0@) == Some(level)
                && entries[j].1.count > 0)) ==> (level_interval(entries, level as int) matches Some(
            run,
        ) && run.file == entries[k].1.file && run.offset == entries[k].1.offset && run.count
            == entries[k].1.count),
        (forall|j: int|
            0 <= j < entries.len() ==> !(index_value((#[trigger] entries[j]).0@) == Some(level)
                && entries[j].1.count > 0)) ==> level_interval(entries, level as int) is None,
    decreases entries.len(),
{
    let before = entries.drop_last();
    let last = entries.len() - 1;
    assert(entries[last] == entries.last());
    assert forall|j: int| 0 <= j < last implies #[trigger] before[j] == entries[j] by {}
    if k < last {
        levels_have_their_last_run(before, level, k);
    } else if before.len() > 0 {
        levels_have_their_last_run(before, level, 0);
    } else {
        assert(level_interval(before, level as int) is None);
    }
}

/// A scene that is read is that of its file: it has the file's levels, counts,
/// units and number of splats, and each node without children of the file's tree
/// is one of its leaves, in the order of the tree. Any version but the first is
/// refused.
pub proof fn scenes_are_those_of_their_files(
    raw: RawLodMeta,
    r: Result<(GaussianLodScene, usize), ReadError>,
    path: Seq<int>,
    level: int,
)
    requires
        read_view(r) == scene_of(Ok(raw)),
    ensures
        r is Ok <==> raw.version == 1,
        r matches Err(e) ==> (e@ matches ReadProblem::LodMetaVersion { version } && version
            == raw.version),
        r matches Ok((scene, count)) ==> {
            &&& count == raw.count
            &&& scene.lod_levels == raw.lod_levels
            &&& scene.counts@ == raw.counts@
            &&& scene.filenames@.len() == raw.filenames@.len()
            &&& forall|f: int|
                0 <= f < raw.filenames@.len() ==> (#[trigger] scene.filenames@[f])@
                    == raw.filenames@[f]@
            &&& scene.leaves@.len() == ends_under(raw.tree)
            &&& (node_at(raw.tree, path) matches Some(end) && end.children is None) ==> {
                let end = node_at(raw.tree, path)->0;
                let at = ends_before(raw.tree, path) as int;
                &&& at < scene.leaves@.len()
                &&& scene.leaves@[at].min == end.bound.min
                &&& scene.leaves@[at].max == end.bound.max
                &&& scene.leaves@[at].lods@.len() == raw.lod_levels
                &&& 0 <= level < raw.lod_levels ==> scene.leaves@[at].lods@[level] == (
                match end.lods {
                    Some(entries) => level_interval(entries@, level),
                    None => None,
                })
            }
        },
{
    let levels = raw.lod_levels as nat;
    no_leaf_is_lost(raw.tree, levels);
    if let Ok((scene, count)) = r {
        assert(scene@.leaves == leaves_of(raw.tree, levels));
        assert(scene@.leaves.len() == scene.leaves@.len());
        assert(texts(scene.filenames@) == texts(raw.filenames@));
        assert(texts(scene.filenames@).len() == scene.filenames@.len());
        assert(texts(raw.filenames@).len() == raw.filenames@.len());
        assert forall|f: int| 0 <= f < raw.filenames@.len() implies (
        #[trigger] scene.filenames@[f])@ == raw.filenames@[f]@ by {
            assert(texts(scene.filenames@)[f] == scene.filenames@[f]@);
            assert(texts(raw.filenames@)[f] == raw.filenames@[f]@);
        }
        if node_at(raw.tree, path) matches Some(end) && end.children is None {
            every_end_is_a_leaf(raw.tree, levels, path);
            let at = ends_before(raw.tree, path) as int;
            assert(scene@.leaves[at] == scene.leaves@[at]@);
        }
    }
}

/// A scene beside which there is no directory has its units where they are listed;
/// and reading it from a path changes where its units are, nothing else.
pub proof fn scenes_without_directory_list_paths(scene: SceneView, name: Seq<char>, file: Seq<char>)
    requires
        !name.contains('/'),
        scene.base_dir == directory(name),
    ensures
        scene.path_of(file) == file,
{
    paths_come_apart_at_the_last_slash(Seq::empty(), name);
}

/// Reading a scene from `dir/name` puts its units under `dir`, and changes nothing else
/// of it.
pub proof fn scenes_are_where_they_are_read(
    scene: SceneView,
    dir: Seq<char>,
    name: Seq<char>,
    file: Seq<char>,
)
    requires
        !name.contains('/'),
        dir.len() > 0,
    ensures
        scene_at(scene, under(dir, name)).path_of(file) == dir + seq!['/'] + file,
        scene_at(scene, name).path_of(file) == file,
        scene_at(scene, under(dir, name)).leaves == scene.leaves,
        scene_at(scene, under(dir, name)).filenames == scene.filenames,
        scene_at(scene, under(dir, name)).counts == scene.counts,
        scene_at(scene, under(dir, name)).lod_levels == scene.lod_levels,
{
    paths_come_apart_at_the_last_slash(dir, name);
    assert(dir.push('/') =~= dir + seq!['/']);
}

} // verus!
