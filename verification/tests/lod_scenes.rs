//! Scenes of many levels: reading them and choosing among their levels.

use gaussian_splat_stream::error::ReadProblem;
use gaussian_splat_stream::float_bits::FloatBits;
use gaussian_splat_stream::io::lod::{
    build_scene, load_scene, parse_lod_meta, LodInterval, LodLeaf, RawBound, RawLod, RawLodMeta,
    RawNode,
};
use gaussian_splat_stream::stream::settings::{select_lod_level, LodSettings};
use gaussian_splat_stream::text::{join_path, parent_dir, parse_index};

const META: &str = r#"{
    "version": 1,
    "asset": { "generator": "splat-transform v3.0.0" },
    "count": 300,
    "counts": [200, 100],
    "lodLevels": 2,
    "filenames": ["0_0/meta.json", "1_0/meta.json"],
    "tree": {
        "bound": { "min": [-2, 0, -2], "max": [2, 2, 2] },
        "children": [
            {
                "bound": { "min": [-2, 0, -2], "max": [0, 2, 2] },
                "lods": {
                    "0": { "file": 0, "offset": 0, "count": 120 },
                    "1": { "file": 1, "offset": 0, "count": 60 }
                }
            },
            {
                "bound": { "min": [0, 0, -2], "max": [2, 2, 2] },
                "lods": {
                    "0": { "file": 0, "offset": 120, "count": 80 },
                    "1": { "file": 1, "offset": 60, "count": 40 }
                }
            }
        ]
    }
}"#;

fn bits(value: f32) -> FloatBits {
    FloatBits { bits: value.to_bits() }
}

fn numbers(values: [FloatBits; 3]) -> [f32; 3] {
    [
        f32::from_bits(values[0].bits),
        f32::from_bits(values[1].bits),
        f32::from_bits(values[2].bits),
    ]
}

fn three(value: &serde_json::Value) -> Result<[FloatBits; 3], String> {
    let list = value.as_array().ok_or("no array".to_owned())?;
    let mut out = [bits(0.0); 3];
    for k in 0..3 {
        out[k] = bits(list[k].as_f64().ok_or("no number".to_owned())? as f32);
    }
    Ok(out)
}

fn index(value: &serde_json::Value) -> Result<usize, String> {
    value.as_u64().map(|v| v as usize).ok_or("no index".to_owned())
}

fn node(value: &serde_json::Value) -> Result<RawNode, String> {
    let children = match value["children"].as_array() {
        Some(list) => Some(list.iter().map(node).collect::<Result<Vec<RawNode>, String>>()?),
        None => None,
    };
    let lods = match value["lods"].as_object() {
        Some(entries) => {
            let mut list = Vec::new();
            for (key, run) in entries {
                list.push((
                    key.clone(),
                    RawLod {
                        file: index(&run["file"])?,
                        offset: run["offset"].as_u64().unwrap_or(0) as usize,
                        count: run["count"].as_u64().unwrap_or(0) as usize,
                    },
                ));
            }
            Some(list)
        }
        None => None,
    };
    Ok(RawNode {
        bound: RawBound { min: three(&value["bound"]["min"])?, max: three(&value["bound"]["max"])? },
        children,
        lods,
    })
}

fn parse(bytes: &[u8]) -> Result<RawLodMeta, String> {
    let value: serde_json::Value = serde_json::from_slice(bytes).map_err(|e| e.to_string())?;
    Ok(RawLodMeta {
        version: index(&value["version"])? as u32,
        count: index(&value["count"])?,
        counts: value["counts"]
            .as_array()
            .ok_or("no counts".to_owned())?
            .iter()
            .map(index)
            .collect::<Result<Vec<usize>, String>>()?,
        lod_levels: index(&value["lodLevels"])?,
        filenames: value["filenames"]
            .as_array()
            .ok_or("no filenames".to_owned())?
            .iter()
            .map(|v| v.as_str().map(str::to_owned).ok_or("no text".to_owned()))
            .collect::<Result<Vec<String>, String>>()?,
        tree: node(&value["tree"])?,
    })
}

#[test]
fn flattens_leaves() {
    let (scene, count) = parse_lod_meta(META.as_bytes(), parse).unwrap();

    assert_eq!(count, 300);
    assert_eq!(scene.lod_levels, 2);
    assert_eq!(scene.counts, vec![200, 100]);
    assert_eq!(scene.filenames.len(), 2);
    assert_eq!(scene.leaves.len(), 2);

    let leaf = &scene.leaves[0];
    assert_eq!(numbers(leaf.min), [-2.0, 0.0, -2.0]);
    assert_eq!(numbers(leaf.max), [0.0, 2.0, 2.0]);

    let lod0 = leaf.lods[0].as_ref().unwrap();
    assert_eq!((lod0.file, lod0.offset, lod0.count), (0, 0, 120));
    let lod1 = leaf.lods[1].as_ref().unwrap();
    assert_eq!((lod1.file, lod1.offset, lod1.count), (1, 0, 60));

    let second_lod0 = scene.leaves[1].lods[0].as_ref().unwrap();
    assert_eq!(
        (second_lod0.file, second_lod0.offset, second_lod0.count),
        (0, 120, 80)
    );
}

#[test]
fn intervals_tile_units() {
    let (scene, _) = parse_lod_meta(META.as_bytes(), parse).unwrap();

    for lod in 0..scene.lod_levels {
        let total: usize = scene
            .leaves
            .iter()
            .filter_map(|leaf| leaf.lods[lod].as_ref())
            .map(|interval| interval.count)
            .sum();
        assert_eq!(total, scene.counts[lod]);
    }
}

#[test]
fn rejects_unknown_version() {
    let bad = META.replace("\"version\": 1", "\"version\": 9");
    assert!(parse_lod_meta(bad.as_bytes(), parse).is_err());
}

#[test]
fn scene_problems_are_worded() {
    let bad = META.replace("\"version\": 1", "\"version\": 9");
    let problem = parse_lod_meta(bad.as_bytes(), parse).unwrap_err();
    assert_eq!(problem.message(), "unsupported lod-meta version: 9");
    let problem = parse_lod_meta(b"[", parse).unwrap_err();
    assert!(matches!(problem, ReadProblem::LodMetaParse { .. }));
    assert_eq!(
        build_scene(Err("odd".to_owned())).unwrap_err().message(),
        "failed to parse lod-meta.json: odd"
    );
}

#[test]
fn nearest_available_falls_back() {
    let leaf = LodLeaf {
        min: [bits(0.0); 3],
        max: [bits(1.0); 3],
        lods: vec![None, Some(LodInterval { file: 0, offset: 0, count: 1 }), None],
    };

    assert_eq!(leaf.nearest_available(1), Some(1));
    assert_eq!(leaf.nearest_available(0), Some(1));
    assert_eq!(leaf.nearest_available(2), Some(1));
    assert_eq!(leaf.nearest_available(9), Some(1));

    let empty = LodLeaf { min: [bits(0.0); 3], max: [bits(1.0); 3], lods: vec![None, None] };
    assert_eq!(empty.nearest_available(0), None);
}

#[test]
fn nearest_prefers_coarser_levels() {
    let run = Some(LodInterval { file: 0, offset: 0, count: 1 });
    let leaf = LodLeaf {
        min: [bits(0.0); 3],
        max: [bits(1.0); 3],
        lods: vec![run, run, None, None, run],
    };
    assert_eq!(leaf.nearest_available(2), Some(4));
    assert_eq!(leaf.nearest_available(3), Some(4));
    let leaf = LodLeaf { lods: vec![run, run, None, None], ..leaf };
    assert_eq!(leaf.nearest_available(3), Some(1));
    let leaf = LodLeaf { lods: Vec::new(), ..leaf };
    assert_eq!(leaf.nearest_available(3), None);
}

#[test]
fn odd_level_keys_are_skipped() {
    let run = |count: usize| RawLod { file: 0, offset: 0, count };
    let bound = RawBound { min: [bits(0.0); 3], max: [bits(1.0); 3] };
    let raw = RawLodMeta {
        version: 1,
        count: 0,
        counts: Vec::new(),
        lod_levels: 3,
        filenames: Vec::new(),
        tree: RawNode {
            bound,
            children: None,
            lods: Some(vec![
                ("x".to_owned(), run(1)),
                ("".to_owned(), run(2)),
                ("3".to_owned(), run(3)),
                ("+1".to_owned(), run(4)),
                ("02".to_owned(), run(5)),
                ("2".to_owned(), run(0)),
                ("-0".to_owned(), run(6)),
            ]),
        },
    };
    let (scene, _) = build_scene(Ok(raw)).unwrap();
    let counts: Vec<Option<usize>> =
        scene.leaves[0].lods.iter().map(|run| run.map(|run| run.count)).collect();
    assert_eq!(counts, vec![None, Some(4), Some(5)]);

    let childless = RawLodMeta {
        version: 1,
        count: 7,
        counts: Vec::new(),
        lod_levels: 1,
        filenames: Vec::new(),
        tree: RawNode { bound, children: Some(Vec::new()), lods: None },
    };
    let (scene, count) = build_scene(Ok(childless)).unwrap();
    assert!(scene.leaves.is_empty());
    assert_eq!(count, 7);
}

#[test]
fn units_lie_beside_the_scene() {
    let scene = load_scene(META.as_bytes(), "web://rooms/lod-meta.json", parse).unwrap();
    assert_eq!(scene.base_dir, "web://rooms");
    assert_eq!(scene.unit_path("0_0/meta.json"), "web://rooms/0_0/meta.json");

    let scene = load_scene(META.as_bytes(), "lod-meta.json", parse).unwrap();
    assert_eq!(scene.base_dir, "");
    assert_eq!(scene.unit_path("0_0/meta.json"), "0_0/meta.json");
    assert!(load_scene(b"", "lod-meta.json", parse).is_err());

    assert_eq!(parent_dir("a/b/c"), Some("a/b".to_owned()));
    assert_eq!(parent_dir("/c"), Some(String::new()));
    assert_eq!(parent_dir("c"), None);
    assert_eq!(join_path("a/b", "c"), "a/b/c");
}

#[test]
fn level_keys_are_decimal() {
    assert_eq!(parse_index("0"), Some(0));
    assert_eq!(parse_index("+12"), Some(12));
    assert_eq!(parse_index("007"), Some(7));
    assert_eq!(parse_index("+"), None);
    assert_eq!(parse_index(""), None);
    assert_eq!(parse_index("1a"), None);
    assert_eq!(parse_index("-1"), None);
    assert_eq!(parse_index(&format!("{}", usize::MAX)), Some(usize::MAX));
    assert_eq!(parse_index(&format!("{}0", usize::MAX)), None);
}

fn level(distance: f32, base: f32, multiplier: f32, levels: usize) -> usize {
    let mut thresholds = Vec::new();
    let mut threshold = base;
    for _ in 1..levels {
        thresholds.push(bits(threshold));
        threshold *= multiplier;
    }
    select_lod_level(bits(distance), &thresholds, levels)
}

#[test]
fn band_selection() {
    assert_eq!(level(0.0, 5.0, 3.0, 4), 0);
    assert_eq!(level(4.9, 5.0, 3.0, 4), 0);
    assert_eq!(level(5.0, 5.0, 3.0, 4), 1);
    assert_eq!(level(14.9, 5.0, 3.0, 4), 1);
    assert_eq!(level(15.0, 5.0, 3.0, 4), 2);
    assert_eq!(level(44.9, 5.0, 3.0, 4), 2);
    assert_eq!(level(45.0, 5.0, 3.0, 4), 3);
    assert_eq!(level(1e9, 5.0, 3.0, 4), 3);
}

#[test]
fn band_selection_clamps_levels() {
    assert_eq!(level(1e9, 5.0, 3.0, 1), 0);
    assert_eq!(level(1e9, 5.0, 3.0, 2), 1);
    assert_eq!(level(0.0, 5.0, 3.0, 0), 0);
}

#[test]
fn farther_is_never_finer() {
    let distances = [0.0f32, 1.0, 4.99, 5.0, 14.0, 15.0, 44.0, 45.0, 1e20, f32::INFINITY];
    for pair in distances.windows(2) {
        assert!(level(pair[0], 5.0, 3.0, 4) <= level(pair[1], 5.0, 3.0, 4));
    }
    assert_eq!(level(f32::NAN, 5.0, 3.0, 4), 3);
    assert_eq!(level(-1.0, 5.0, 3.0, 4), 0);
}

#[test]
fn numbers_compare_as_numbers() {
    assert!(bits(0.0).equals(bits(-0.0)));
    assert!(!bits(f32::NAN).equals(bits(f32::NAN)));
    assert!(bits(-2.0).lt(bits(-1.0)));
    assert!(!bits(-1.0).lt(bits(-2.0)));
    assert!(bits(-1.0).lt(bits(1.0)));
    assert!(!bits(f32::NAN).lt(bits(1.0)));
    assert!(bits(1.0).place_of() < bits(f32::NAN).place_of());
}

#[test]
fn default_settings() {
    let settings = LodSettings::default();
    assert_eq!(f32::from_bits(settings.base_distance.bits), 5.0);
    assert_eq!(f32::from_bits(settings.multiplier.bits), 3.0);
    assert_eq!(f32::from_bits(settings.update_distance.bits), 1.0);
    assert_eq!(settings.forced_lod, None);
    assert_eq!(settings.cooldown_frames, 100);
    assert_eq!(settings.max_decodes_in_flight, 4);
}
