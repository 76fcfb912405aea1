//! A scene streamed frame by frame: a host that keeps files in memory, loads
//! units and decodes runs between frames, and shows what arrives.

use std::collections::HashMap;
use std::sync::Arc;

use gaussian_splat_stream::float_bits::FloatBits;
use gaussian_splat_stream::gaussian::{Gaussian3d, PlanarGaussian3d, PositionBounds};
use gaussian_splat_stream::io::lod::{
    build_scene, GaussianLodScene, LodInterval, LodLeaf, RawBound, RawLod, RawLodMeta, RawNode,
};
use gaussian_splat_stream::io::sog::{SogCodebook, SogMeans, SogMeta, SogQuats};
use gaussian_splat_stream::stream::budget::{
    coarsest_of, composite_capacity, order_by_distance, share_budget,
};
use gaussian_splat_stream::stream::composite::{CompositeWrite, CompositeWriteQueue};
use gaussian_splat_stream::stream::plan::StreamAction;
use gaussian_splat_stream::stream::runtime::{leaf_cloud_name, LodRuntime, SwapOutcome};
use gaussian_splat_stream::stream::settings::LodSettings;
use gaussian_splat_stream::stream::units::{
    assemble_unit, decode_interval, unit_requests, DecodedUnit, SogUnitCache, UnitState,
};

const SCENE: u64 = 77;
const CLOUD: u64 = 5;

fn bits(value: f32) -> FloatBits {
    FloatBits { bits: value.to_bits() }
}

fn number(value: FloatBits) -> f32 {
    f32::from_bits(value.bits)
}

fn encode_webp(rgba: &[u8], width: u32, height: u32) -> Vec<u8> {
    let mut bytes = Vec::new();
    image::codecs::webp::WebPEncoder::new_lossless(std::io::Cursor::new(&mut bytes))
        .encode(rgba, width, height, image::ExtendedColorType::Rgba8)
        .unwrap();
    bytes
}

fn unit_meta(count: usize) -> SogMeta {
    let codebook = vec![bits(-2.0); 256];
    SogMeta {
        version: 2,
        count,
        means: SogMeans {
            mins: [bits(-1.0); 3],
            maxs: [bits(1.0); 3],
            files: vec!["means_l.webp".to_owned(), "means_u.webp".to_owned()],
        },
        scales: SogCodebook { codebook: codebook.clone(), files: vec!["scales.webp".to_owned()] },
        quats: SogQuats { files: vec!["quats.webp".to_owned()] },
        sh0: SogCodebook { codebook, files: vec!["sh0.webp".to_owned()] },
        sh_n: None,
    }
}

/// Puts the files of a unit of `count` splats under `dir`.
fn write_unit(files: &mut HashMap<String, Vec<u8>>, dir: &str, count: usize) {
    let per_gaussian =
        |values: [u8; 4]| -> Vec<u8> { (0..count).flat_map(|_| values).collect::<Vec<u8>>() };
    let textures = [
        ("means_l.webp", per_gaussian([128, 128, 128, 255])),
        ("means_u.webp", per_gaussian([128, 128, 128, 255])),
        ("quats.webp", per_gaussian([128, 128, 128, 252])),
        ("scales.webp", per_gaussian([0, 0, 0, 255])),
        ("sh0.webp", per_gaussian([0, 0, 0, 255])),
    ];
    for (name, rgba) in textures {
        files.insert(format!("{dir}/{name}"), encode_webp(&rgba, count as u32, 1));
    }
}

fn raw_leaf(min: f32, max: f32, offset0: usize, offset1: usize) -> RawNode {
    RawNode {
        bound: RawBound {
            min: [bits(min), bits(-2.0), bits(-2.0)],
            max: [bits(max), bits(2.0), bits(2.0)],
        },
        children: None,
        lods: Some(vec![
            ("0".to_owned(), RawLod { file: 0, offset: offset0, count: 4 }),
            ("1".to_owned(), RawLod { file: 1, offset: offset1, count: 2 }),
        ]),
    }
}

/// Two leaves with two levels, one near the origin and one far away.
fn scene() -> (GaussianLodScene, HashMap<String, Vec<u8>>) {
    let mut files = HashMap::new();
    write_unit(&mut files, "rooms/0_0", 8);
    write_unit(&mut files, "rooms/1_0", 4);
    let near = raw_leaf(-2.0, 2.0, 0, 0);
    let far = raw_leaf(98.0, 102.0, 4, 2);
    let raw = RawLodMeta {
        version: 1,
        count: 12,
        counts: vec![8, 4],
        lod_levels: 2,
        filenames: vec!["0_0/meta.json".to_owned(), "1_0/meta.json".to_owned()],
        tree: RawNode {
            bound: RawBound { min: [bits(-2.0); 3], max: [bits(102.0), bits(2.0), bits(2.0)] },
            children: Some(vec![near, far]),
            lods: None,
        },
    };
    let (scene, count) = build_scene(Ok(raw)).unwrap();
    assert_eq!(count, 12);
    (scene.located("rooms/lod-meta.json"), files)
}

struct Host {
    scene: GaussianLodScene,
    files: HashMap<String, Vec<u8>>,
    settings: LodSettings,
    runtime: LodRuntime,
    cache: SogUnitCache,
    loads: Vec<(usize, String)>,
    decodes: HashMap<usize, (Result<Vec<Gaussian3d>, String>, PositionBounds)>,
    children: Vec<u64>,
    named: Vec<String>,
    spawned: u64,
    queue: CompositeWriteQueue,
    warnings: Vec<String>,
    camera: [f32; 3],
}

impl Host {
    fn new(settings: LodSettings) -> Host {
        let (scene, files) = scene();
        let runtime = if settings.composite {
            let capacity = composite_capacity(&scene.leaves, settings.splat_budget);
            LodRuntime::with_composite(scene.leaves.len(), CLOUD, capacity)
        } else {
            LodRuntime::new(scene.leaves.len())
        };
        let children = if settings.composite { vec![1] } else { Vec::new() };
        Host {
            scene,
            files,
            settings,
            runtime,
            cache: SogUnitCache::new(),
            loads: Vec::new(),
            decodes: HashMap::new(),
            children,
            named: Vec::new(),
            spawned: 1,
            queue: CompositeWriteQueue::new(),
            warnings: Vec::new(),
            camera: [0.0; 3],
        }
    }

    fn distance(&self, leaf: &LodLeaf) -> f32 {
        let mut squares = 0.0f32;
        for k in 0..3 {
            let near = self.camera[k].clamp(number(leaf.min[k]), number(leaf.max[k]));
            squares += (near - self.camera[k]) * (near - self.camera[k]);
        }
        squares.sqrt()
    }

    fn load(&self, path: &str) -> Result<DecodedUnit, String> {
        let count = if path.contains("0_0") { 8 } else { 4 };
        let meta = SogMeta::checked(Ok(unit_meta(count))).map_err(|e| e.message())?;
        let mut files = Vec::new();
        for (name, path) in unit_requests(&meta, path) {
            let bytes = self.files.get(&path).cloned().ok_or(format!("{path}: not found"))?;
            files.push((name, bytes));
        }
        assemble_unit(meta, &files)
    }

    fn pick_levels(&mut self) {
        let travelled = self.runtime.last_eval().map(|last| {
            let mut squares = 0.0f32;
            for k in 0..3 {
                let step = number(last[k]) - self.camera[k];
                squares += step * step;
            }
            bits(squares.sqrt())
        });
        if !self.runtime.needs_evaluation(travelled, &self.settings) {
            return;
        }
        let distances: Vec<FloatBits> =
            self.scene.leaves.iter().map(|leaf| bits(self.distance(leaf))).collect();
        let mut thresholds = Vec::new();
        let mut threshold = number(self.settings.base_distance);
        for _ in 1..self.scene.lod_levels {
            thresholds.push(bits(threshold));
            threshold *= number(self.settings.multiplier);
        }
        let camera = [bits(self.camera[0]), bits(self.camera[1]), bits(self.camera[2])];
        self.runtime.evaluate(&self.scene, &self.settings, camera, &distances, &thresholds);
    }

    fn manage(&mut self) -> usize {
        assert!(self.runtime.can_manage(&self.cache, SCENE, &self.scene, &self.settings));
        let actions =
            self.runtime.manage_units(&mut self.cache, SCENE, &self.scene, &self.settings);
        let count = actions.len();
        for action in actions {
            match action {
                StreamAction::Cancel { leaf } => {
                    self.decodes.remove(&leaf);
                }
                StreamAction::Load { file, path } => self.loads.push((file, path)),
                StreamAction::Decode { leaf, offset, count, unit, .. } => {
                    let padded = !self.settings.composite;
                    let bounds =
                        PositionBounds { mins: unit.meta.means.mins, maxs: unit.meta.means.maxs };
                    let result = decode_interval(&unit, offset, count, padded);
                    self.decodes.insert(leaf, (result, bounds));
                }
            }
        }
        count
    }

    fn finish_loads(&mut self) {
        for (file, path) in std::mem::take(&mut self.loads) {
            let result = self.load(&path);
            if let Some(warning) = self.cache.finish_load(SCENE, file, result) {
                self.warnings.push(warning);
            }
        }
    }

    fn swap(&mut self) {
        let mut arrived: Vec<usize> = self.decodes.keys().copied().collect();
        arrived.sort();
        for leaf in arrived {
            let (result, bounds) = self.decodes.remove(&leaf).unwrap();
            match self.runtime.finish_decode(&mut self.cache, SCENE, leaf, result) {
                SwapOutcome::Idle => unreachable!(),
                SwapOutcome::Failed { warning } => self.warnings.push(warning),
                SwapOutcome::Arrived { lod, splats } => {
                    let cloud = PlanarGaussian3d::from_interleaved(bounds, splats);
                    if self.settings.composite {
                        for write in self.runtime.place(leaf, lod, cloud) {
                            self.queue.push(write);
                        }
                    } else {
                        assert_eq!(cloud.len() % 32, 0);
                        self.spawned += 1;
                        self.children.push(self.spawned);
                        self.named.push(leaf_cloud_name(leaf, lod));
                        if let Some(old) = self.runtime.show(leaf, lod, self.spawned) {
                            self.children.retain(|child| *child != old);
                        }
                    }
                }
            }
        }
    }

    fn frame(&mut self) {
        self.pick_levels();
        self.manage();
        self.finish_loads();
        self.swap();
        self.cache.evict_units();
    }

    fn pump(&mut self, frames: usize) {
        for _ in 0..frames {
            self.frame();
        }
    }
}

#[test]
fn streams_distance_based_lods() {
    let mut host = Host::new(LodSettings { composite: false, ..Default::default() });
    host.pump(10);

    let active = host.runtime.active_lods();
    assert_eq!(active.len(), 2);
    assert!(active.contains(&(0, 0)), "near leaf should be LOD 0: {active:?}");
    assert!(active.contains(&(1, 1)), "far leaf should be LOD 1: {active:?}");
    assert_eq!(host.children.len(), 2);
    assert_eq!(host.named, vec!["lod_leaf_0_lod0", "lod_leaf_1_lod1"]);
}

#[test]
fn forced_lod_and_eviction() {
    let mut host = Host::new(LodSettings {
        forced_lod: Some(1),
        cooldown_frames: 3,
        composite: false,
        ..Default::default()
    });
    host.pump(4);
    assert_eq!(host.runtime.active_lods(), vec![(0, 1), (1, 1)]);

    host.pump(20);
    assert!(host.cache.is_empty(), "unit cache should evict after cooldown");
}

#[test]
fn composite_mode_patches_one_cloud() {
    let mut host =
        Host::new(LodSettings { composite: true, splat_budget: 64, ..Default::default() });
    host.pump(10);

    assert_eq!(host.runtime.in_flight(), 0);
    let active = host.runtime.active_lods();
    assert_eq!(active.len(), 2);
    assert!(active.contains(&(0, 0)), "near leaf should be LOD 0: {active:?}");
    assert!(active.contains(&(1, 1)), "far leaf should be LOD 1: {active:?}");

    assert_eq!(host.children.len(), 1);
    assert_eq!(host.runtime.composite_used(), Some(6));

    let composite_id = host.runtime.composite_handle().unwrap();
    let blocks = host
        .queue
        .writes
        .iter()
        .filter(|w| matches!(w, CompositeWrite::Block { asset, .. } if *asset == composite_id))
        .count();
    assert_eq!(blocks, 2, "expected one Block write per leaf");
}

#[test]
fn composite_budget_never_starves_leaves() {
    let mut host = Host::new(LodSettings {
        composite: true,
        splat_budget: 4,
        forced_lod: Some(0),
        ..Default::default()
    });
    host.pump(10);

    assert_eq!(host.runtime.in_flight(), 0);
    assert_eq!(
        host.runtime.active_lods(),
        vec![(0, 1), (1, 1)],
        "both leaves at coarsest, no holes"
    );
    assert!(host.runtime.composite_used().unwrap() <= 4);
}

#[test]
fn composite_budget_degrades_to_coarser_lod() {
    let mut host = Host::new(LodSettings {
        composite: true,
        splat_budget: 6,
        forced_lod: Some(0),
        ..Default::default()
    });
    host.pump(10);

    let active = host.runtime.active_lods();
    assert_eq!(active.len(), 2);
    assert_eq!(host.runtime.in_flight(), 0);
    let used = host.runtime.composite_used().unwrap();
    assert!(used <= 6, "budget exceeded: {used}");
    let lods: Vec<usize> = active.iter().map(|(_, lod)| *lod).collect();
    assert!(
        lods.contains(&0) && lods.contains(&1),
        "expected one degraded leaf: {active:?}"
    );
}

#[test]
fn far_camera_converges_to_coarsest() {
    for composite in [false, true] {
        let mut host = Host::new(LodSettings { composite, ..Default::default() });
        host.pump(10);
        host.camera = [10_000.0, 0.0, 0.0];
        host.pump(10);
        for (leaf, lod) in host.runtime.active_lods() {
            assert_eq!(Some(lod), host.scene.leaves[leaf].nearest_available(usize::MAX));
        }
        assert_eq!(host.runtime.active_lods().len(), 2);
        if composite {
            assert_eq!(host.runtime.composite_used(), Some(4));
        }
    }
}

#[test]
fn leaves_stay_shown_while_others_arrive() {
    let mut host = Host::new(LodSettings { composite: false, ..Default::default() });
    host.pump(10);
    let before = host.children.clone();
    host.camera = [50.0, 0.0, 0.0];
    host.pick_levels();
    host.manage();
    assert_eq!(host.children, before);
    assert_eq!(host.runtime.active_lods(), vec![(0, 0), (1, 1)]);
    host.finish_loads();
    host.swap();
    host.pump(3);
    assert_eq!(host.runtime.active_lods(), vec![(0, 1), (1, 1)]);
    assert_eq!(host.children.len(), 2);
}

#[test]
fn moving_within_the_threshold_changes_nothing() {
    let mut host = Host::new(LodSettings { composite: false, ..Default::default() });
    host.pump(5);
    host.camera = [0.9, 0.0, 0.0];
    assert!(!host.runtime.needs_evaluation(Some(bits(0.9)), &host.settings));
    assert!(!host.runtime.needs_evaluation(Some(bits(1.0)), &host.settings));
    assert!(host.runtime.needs_evaluation(Some(bits(1.1)), &host.settings));
    host.settings.forced_lod = Some(0);
    assert!(host.runtime.needs_evaluation(Some(bits(0.9)), &host.settings));
    host.settings.forced_lod = None;
    host.settings.multiplier = bits(2.0);
    assert!(host.runtime.needs_evaluation(Some(bits(0.9)), &host.settings));
    assert!(LodRuntime::new(1).needs_evaluation(None, &LodSettings::default()));
}

#[test]
fn stale_decodes_are_given_up_and_their_uses_too() {
    let mut host = Host::new(LodSettings {
        composite: false,
        forced_lod: Some(0),
        ..Default::default()
    });
    host.pick_levels();
    assert_eq!(host.manage(), 1);
    assert_eq!(host.loads, vec![(0, "rooms/0_0/meta.json".to_owned())]);
    assert!(matches!(host.cache.get(SCENE, 0).unwrap().state, UnitState::Loading));
    assert_eq!(host.manage(), 0);
    host.finish_loads();
    assert_eq!(host.manage(), 2);
    assert_eq!(host.runtime.in_flight(), 2);
    assert_eq!(host.cache.get(SCENE, 0).unwrap().refs, 2);

    host.settings.forced_lod = Some(1);
    host.pick_levels();
    assert_eq!(host.manage(), 3);
    assert_eq!(host.runtime.in_flight(), 0);
    assert!(host.decodes.is_empty());
    assert_eq!(host.cache.get(SCENE, 0).unwrap().refs, 0);
    assert_eq!(host.cache.len(), 2);
}

#[test]
fn decodes_are_capped() {
    let mut host = Host::new(LodSettings {
        composite: false,
        forced_lod: Some(0),
        max_decodes_in_flight: 1,
        ..Default::default()
    });
    host.pick_levels();
    host.manage();
    host.finish_loads();
    assert_eq!(host.manage(), 1);
    assert_eq!(host.runtime.in_flight(), 1);
    assert_eq!(host.manage(), 0);
    host.swap();
    assert_eq!(host.manage(), 1);
    assert_eq!(host.runtime.in_flight(), 1);
}

#[test]
fn failed_units_are_tried_again_after_they_left() {
    let mut host = Host::new(LodSettings {
        composite: false,
        forced_lod: Some(1),
        cooldown_frames: 2,
        ..Default::default()
    });
    let texture = host.files.remove("rooms/1_0/quats.webp").unwrap();
    host.frame();
    assert_eq!(
        host.warnings,
        vec!["failed to load SOG unit 1: rooms/1_0/quats.webp: not found"]
    );
    assert!(matches!(host.cache.get(SCENE, 1).unwrap().state, UnitState::Failed));
    assert_eq!(host.cache.len(), 0);
    assert!(!host.cache.is_empty());
    host.files.insert("rooms/1_0/quats.webp".to_owned(), texture);
    host.pump(5);
    assert_eq!(host.runtime.active_lods(), vec![(0, 1), (1, 1)]);
    assert_eq!(host.warnings.len(), 1);
}

#[test]
fn failed_decodes_are_told() {
    let mut host = Host::new(LodSettings {
        composite: false,
        forced_lod: Some(0),
        ..Default::default()
    });
    host.scene.leaves[1].lods[0] = Some(LodInterval { file: 0, offset: 6, count: 4 });
    host.pump(3);
    assert_eq!(host.runtime.active_lods(), vec![(0, 0)]);
    assert_eq!(
        host.warnings[0],
        "leaf 1 interval decode failed: SOG range 6..10 out of bounds (count 8)"
    );
}

#[test]
fn impossible_frames_are_recognised() {
    let mut host = Host::new(LodSettings {
        composite: false,
        forced_lod: Some(0),
        ..Default::default()
    });
    host.pick_levels();
    assert!(host.runtime.can_manage(&host.cache, SCENE, &host.scene, &host.settings));
    host.scene.filenames.clear();
    assert!(!host.runtime.can_manage(&host.cache, SCENE, &host.scene, &host.settings));
    host.scene.leaves[0].lods.clear();
    assert!(!host.runtime.can_manage(&host.cache, SCENE, &host.scene, &host.settings));
    let few = LodRuntime::new(1);
    assert!(!few.can_manage(&host.cache, SCENE, &host.scene, &host.settings));
    assert!(host.cache.has_room(3));
}

#[test]
fn composite_swaps_clear_before_they_write() {
    let mut host = Host::new(LodSettings { composite: true, ..Default::default() });
    host.pump(10);
    assert_eq!(host.runtime.composite_used(), Some(6));
    host.queue = CompositeWriteQueue::new();
    host.camera = [50.0, 0.0, 0.0];
    host.pump(5);
    assert_eq!(host.runtime.active_lods(), vec![(0, 1), (1, 1)]);
    assert_eq!(host.queue.len(), 2);
    assert!(matches!(
        host.queue.writes[0],
        CompositeWrite::Clear { asset: CLOUD, offset: 0, len: 4 }
    ));
    assert!(matches!(
        &host.queue.writes[1],
        CompositeWrite::Block { asset: CLOUD, offset: 0, data } if data.len() == 2
    ));
    assert_eq!(host.runtime.composite_used(), Some(4));
}

#[test]
fn leaves_change_places_in_a_full_buffer() {
    let mut host =
        Host::new(LodSettings { composite: true, splat_budget: 6, ..Default::default() });
    host.pump(10);
    assert_eq!(host.runtime.active_lods(), vec![(0, 0), (1, 1)]);
    assert_eq!(host.runtime.composite_used(), Some(6));
    host.camera = [100.0, 0.0, 0.0];
    host.pump(5);
    assert_eq!(host.runtime.active_lods(), vec![(0, 1), (1, 0)]);
    assert_eq!(host.runtime.composite_used(), Some(6));
}

fn splats(count: usize) -> PlanarGaussian3d {
    let zero = [bits(0.0); 3];
    PlanarGaussian3d::from_interleaved(
        PositionBounds { mins: zero, maxs: zero },
        vec![Gaussian3d::default(); count],
    )
}

#[test]
fn without_room_a_leaf_keeps_what_it_shows() {
    let mut runtime = LodRuntime::with_composite(2, CLOUD, 6);
    assert_eq!(runtime.place(0, 1, splats(3)).len(), 1);
    assert_eq!(runtime.place(1, 1, splats(2)).len(), 1);
    assert_eq!(runtime.composite_used(), Some(5));

    assert!(runtime.place(0, 0, splats(5)).is_empty());
    assert_eq!(runtime.active_lods(), vec![(0, 1), (1, 1)]);
    assert_eq!(runtime.composite_used(), Some(5));

    assert_eq!(runtime.place(1, 0, splats(3)).len(), 2);
    assert_eq!(runtime.place(0, 2, splats(1)).len(), 2);
    assert_eq!(runtime.active_lods(), vec![(0, 2), (1, 0)]);
    assert_eq!(runtime.composite_used(), Some(4));
}

#[test]
fn cut_up_room_is_too_small_until_there_is_some_to_spare() {
    for (capacity, fits) in [(6, false), (7, true)] {
        let mut runtime = LodRuntime::with_composite(3, CLOUD, capacity);
        runtime.place(0, 1, splats(1));
        runtime.place(1, 0, splats(1));
        runtime.place(0, 0, splats(3));
        assert_eq!(runtime.composite_used(), Some(4));
        assert_eq!(!runtime.place(2, 0, splats(2)).is_empty(), fits);
    }
    // two blocks leave at most three pieces: four free splats hold a run of two
    let mut runtime = LodRuntime::with_composite(3, CLOUD, 8);
    runtime.place(0, 1, splats(1));
    runtime.place(1, 0, splats(1));
    runtime.place(0, 0, splats(3));
    assert_eq!(runtime.place(2, 0, splats(2)).len(), 1);
    assert_eq!(runtime.active_lods(), vec![(0, 0), (1, 0), (2, 0)]);
}

fn leaf(counts: &[usize]) -> LodLeaf {
    LodLeaf {
        min: [bits(0.0); 3],
        max: [bits(0.0); 3],
        lods: counts
            .iter()
            .map(|count| {
                if *count == 0 {
                    None
                } else {
                    Some(LodInterval { file: 0, offset: 0, count: *count })
                }
            })
            .collect(),
    }
}

#[test]
fn nearest_leaves_are_served_first() {
    let distances = vec![bits(3.0), bits(1.0), bits(2.0), bits(1.0), bits(f32::NAN)];
    let order = order_by_distance(&distances);
    assert_eq!(order, vec![1, 3, 2, 0, 4]);

    let leaves = vec![leaf(&[8, 4, 1]), leaf(&[8, 4, 1]), leaf(&[0, 0, 0])];
    let wishes = vec![Some(0), Some(0), None];
    assert_eq!(share_budget(&leaves, &wishes, &vec![1, 0, 2], 12), vec![Some(1), Some(0), None]);
    assert_eq!(share_budget(&leaves, &wishes, &vec![0, 1, 2], 12), vec![Some(0), Some(1), None]);
    assert_eq!(share_budget(&leaves, &wishes, &vec![0, 1, 2], 16), vec![Some(0), Some(0), None]);
    assert_eq!(share_budget(&leaves, &wishes, &vec![0, 1, 2], 1), vec![Some(2), Some(2), None]);
    assert_eq!(coarsest_of(&leaves[0]), Some(2));
    assert_eq!(coarsest_of(&leaves[2]), None);
    assert_eq!(composite_capacity(&leaves, 0), 24);
    assert_eq!(composite_capacity(&leaves, 5), 5);
}

#[test]
fn units_lie_beside_their_meta() {
    let meta = unit_meta(1);
    let requests = unit_requests(&meta, "a/b/meta.json");
    assert_eq!(requests[0], ("means_l.webp".to_owned(), "a/b/means_l.webp".to_owned()));
    assert_eq!(requests.len(), 5);
    assert_eq!(unit_requests(&meta, "meta.json")[4].1, "sh0.webp");

    let missing = assemble_unit(meta, &Vec::new()).unwrap_err();
    assert_eq!(missing, "missing texture means_l.webp");
}

#[test]
fn runs_are_padded_for_clouds_of_their_own() {
    let host = Host::new(LodSettings::default());
    let unit = host.load("rooms/0_0/meta.json").unwrap();
    assert_eq!(decode_interval(&unit, 2, 3, true).unwrap().len(), 32);
    assert_eq!(decode_interval(&unit, 2, 3, false).unwrap().len(), 3);
    assert_eq!(
        decode_interval(&unit, 2, 7, true).unwrap_err(),
        "SOG range 2..9 out of bounds (count 8)"
    );
}

#[test]
fn decode_actions_share_the_unit_in_the_cache() {
    let mut host = Host::new(LodSettings { forced_lod: Some(0), ..Default::default() });
    host.pick_levels();
    host.manage();
    host.finish_loads();
    let actions = host.runtime.manage_units(&mut host.cache, SCENE, &host.scene, &host.settings);
    let held = match &host.cache.get(SCENE, 0).unwrap().state {
        UnitState::Ready(unit) => unit.clone(),
        _ => unreachable!(),
    };
    for action in actions {
        match action {
            StreamAction::Decode { unit, lod, .. } => {
                assert!(Arc::ptr_eq(&unit, &held));
                assert_eq!(lod, 0);
            }
            _ => unreachable!(),
        }
    }
}
