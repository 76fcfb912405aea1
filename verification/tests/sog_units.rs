//! Units: their `meta.json`, their textures and the splats decoded from them.

use std::collections::HashMap;
use std::io::Write;

use gaussian_splat_stream::error::ReadProblem;
use gaussian_splat_stream::float_bits::FloatBits;
use gaussian_splat_stream::gaussian::{
    pad_to_multiple_of_32, padded_count, Gaussian3d, PositionBounds, RotationComponent, SH_CHANNELS,
    SH_COEFF_COUNT, SH_DEGREE,
};
use gaussian_splat_stream::io::alpha_frame::find_overrun;
use gaussian_splat_stream::io::bundle::{entry_reply, parse_listed_bundle, parse_sog_bundle, resolve};
use gaussian_splat_stream::io::sog::{
    decode_range, parse_sog, Reply, SogCodebook, SogMeans, SogMeta, SogQuats, SogShN,
};
use gaussian_splat_stream::io::webp::{decode_webp, name_texture};

fn bits(value: f32) -> FloatBits {
    FloatBits { bits: value.to_bits() }
}

fn number(value: FloatBits) -> f32 {
    f32::from_bits(value.bits)
}

fn all_bits(values: &[f32]) -> Vec<FloatBits> {
    values.iter().map(|v| bits(*v)).collect()
}

fn encode_webp(rgba: &[u8], width: u32, height: u32) -> Vec<u8> {
    let mut bytes = Vec::new();
    image::codecs::webp::WebPEncoder::new_lossless(std::io::Cursor::new(&mut bytes))
        .encode(rgba, width, height, image::ExtendedColorType::Rgba8)
        .unwrap();
    bytes
}

fn log_transform(x: f32) -> f32 {
    x.signum() * (x.abs() + 1.0).ln()
}

fn inv_log_transform(v: f32) -> f32 {
    v.signum() * (v.abs().exp() - 1.0)
}

fn position(gaussian: &Gaussian3d, bounds: &PositionBounds) -> [f32; 3] {
    let codes = gaussian.position_visibility.position.unwrap();
    let mut out = [0.0f32; 3];
    for k in 0..3 {
        let min = number(bounds.mins[k]);
        let span = number(bounds.maxs[k]) - min;
        out[k] = inv_log_transform(min + span * (codes[k] as f32 / 65535.0));
    }
    out
}

fn rotation(gaussian: &Gaussian3d) -> [f32; 4] {
    let mut quat = [0.0f32; 4];
    let mut squares = 0.0f32;
    let mut largest = None;
    for k in 0..4 {
        match gaussian.rotation.rotation[k] {
            RotationComponent::Zero => quat[k] = 0.0,
            RotationComponent::One => quat[k] = 1.0,
            RotationComponent::Packed(b) => {
                quat[k] = (b as f32 / 255.0 * 2.0 - 1.0) / std::f32::consts::SQRT_2;
                squares += quat[k] * quat[k];
            }
            RotationComponent::Largest => largest = Some(k),
        }
    }
    if let Some(k) = largest {
        quat[k] = (1.0 - squares).max(0.0).sqrt();
        let norm = quat.iter().map(|v| v * v).sum::<f32>().sqrt();
        if norm > 0.0 {
            for v in &mut quat {
                *v /= norm;
            }
        }
    }
    quat
}

fn scale(gaussian: &Gaussian3d) -> [f32; 3] {
    let logs = gaussian.scale_opacity.log_scale.unwrap();
    let logs = [number(logs[0]), number(logs[1]), number(logs[2])];
    let mean = (logs[0] + logs[1] + logs[2]) / 3.0;
    let mut out = [0.0f32; 3];
    for k in 0..3 {
        out[k] = logs[k].max(mean - 4.0).min(mean + 4.0).exp();
    }
    out
}

fn opacity(gaussian: &Gaussian3d) -> f32 {
    gaussian.scale_opacity.opacity as f32 / 255.0
}

fn bounds_of(meta: &SogMeta) -> PositionBounds {
    PositionBounds { mins: meta.means.mins, maxs: meta.means.maxs }
}

/// A unit of two splats: splat 0 at the lower bounds, splat 1 at the upper ones.
fn test_sog() -> (SogMeta, HashMap<String, Vec<u8>>) {
    let count = 2;
    let mins = [log_transform(-1.0), log_transform(-2.0), log_transform(-4.0)];
    let maxs = [log_transform(1.0), log_transform(2.0), log_transform(4.0)];

    let means_l = vec![0, 0, 0, 255, 255, 255, 255, 255];
    let means_u = vec![0, 0, 0, 255, 255, 255, 255, 255];

    let quats = vec![128, 128, 128, 252, 128, 128, 128, 252];

    let mut scale_codebook = vec![0.0f32; 256];
    scale_codebook[7] = -2.0;
    let scales = vec![7, 7, 7, 255, 7, 7, 7, 255];

    let mut sh0_codebook = vec![0.0f32; 256];
    sh0_codebook[3] = 0.5;
    sh0_codebook[9] = -0.25;
    let sh0 = vec![3, 3, 3, 255, 9, 9, 9, 51];

    let mut files = HashMap::new();
    files.insert("means_l.webp".to_owned(), encode_webp(&means_l, count, 1));
    files.insert("means_u.webp".to_owned(), encode_webp(&means_u, count, 1));
    files.insert("quats.webp".to_owned(), encode_webp(&quats, count, 1));
    files.insert("scales.webp".to_owned(), encode_webp(&scales, count, 1));
    files.insert("sh0.webp".to_owned(), encode_webp(&sh0, count, 1));

    let meta = SogMeta {
        version: 2,
        count: count as usize,
        means: SogMeans {
            mins: [bits(mins[0]), bits(mins[1]), bits(mins[2])],
            maxs: [bits(maxs[0]), bits(maxs[1]), bits(maxs[2])],
            files: vec!["means_l.webp".to_owned(), "means_u.webp".to_owned()],
        },
        scales: SogCodebook {
            codebook: all_bits(&scale_codebook),
            files: vec!["scales.webp".to_owned()],
        },
        quats: SogQuats { files: vec!["quats.webp".to_owned()] },
        sh0: SogCodebook {
            codebook: all_bits(&sh0_codebook),
            files: vec!["sh0.webp".to_owned()],
        },
        sh_n: None,
    };

    (meta, files)
}

fn fetch_from(files: &HashMap<String, Vec<u8>>) -> impl FnMut(&str) -> Reply + '_ {
    move |name: &str| {
        files
            .get(name)
            .cloned()
            .ok_or_else(|| ReadProblem::Io { reason: format!("missing {name}"), invalid_data: true })
    }
}

fn as_count(value: &serde_json::Value) -> Result<usize, String> {
    value.as_u64().map(|v| v as usize).ok_or("no count".to_owned())
}

fn as_floats(value: &serde_json::Value) -> Result<Vec<FloatBits>, String> {
    value
        .as_array()
        .ok_or("no array".to_owned())?
        .iter()
        .map(|v| v.as_f64().map(|v| bits(v as f32)).ok_or("no number".to_owned()))
        .collect()
}

fn as_three(value: &serde_json::Value) -> Result<[FloatBits; 3], String> {
    as_floats(value)?.try_into().map_err(|_| "not three".to_owned())
}

fn as_names(value: &serde_json::Value) -> Result<Vec<String>, String> {
    value
        .as_array()
        .ok_or("no array".to_owned())?
        .iter()
        .map(|v| v.as_str().map(str::to_owned).ok_or("no text".to_owned()))
        .collect()
}

fn parse_meta(bytes: &[u8]) -> Result<SogMeta, String> {
    let value: serde_json::Value = serde_json::from_slice(bytes).map_err(|e| e.to_string())?;
    let codebook = |value: &serde_json::Value| -> Result<SogCodebook, String> {
        Ok(SogCodebook {
            codebook: as_floats(&value["codebook"])?,
            files: as_names(&value["files"])?,
        })
    };
    let sh_n = &value["shN"];
    Ok(SogMeta {
        version: as_count(&value["version"])? as u32,
        count: as_count(&value["count"])?,
        means: SogMeans {
            mins: as_three(&value["means"]["mins"])?,
            maxs: as_three(&value["means"]["maxs"])?,
            files: as_names(&value["means"]["files"])?,
        },
        scales: codebook(&value["scales"])?,
        quats: SogQuats { files: as_names(&value["quats"]["files"])? },
        sh0: codebook(&value["sh0"])?,
        sh_n: if sh_n.is_null() {
            None
        } else {
            Some(SogShN {
                count: as_count(&sh_n["count"])?,
                bands: as_count(&sh_n["bands"])?,
                codebook: as_floats(&sh_n["codebook"])?,
                files: as_names(&sh_n["files"])?,
            })
        },
    })
}

fn meta_json(meta: &SogMeta) -> String {
    let three = |v: &[FloatBits; 3]| [number(v[0]), number(v[1]), number(v[2])];
    let list = |v: &Vec<FloatBits>| v.iter().map(|b| number(*b)).collect::<Vec<f32>>();
    format!(
        r#"{{
            "version": {},
            "count": {},
            "means": {{ "mins": {:?}, "maxs": {:?}, "files": ["means_l.webp", "means_u.webp"] }},
            "scales": {{ "codebook": {:?}, "files": ["scales.webp"] }},
            "quats": {{ "files": ["quats.webp"] }},
            "sh0": {{ "codebook": {:?}, "files": ["sh0.webp"] }}
        }}"#,
        meta.version,
        meta.count,
        three(&meta.means.mins),
        three(&meta.means.maxs),
        list(&meta.scales.codebook),
        list(&meta.sh0.codebook),
    )
}

#[test]
fn decodes_positions_scales_opacity() {
    let (meta, files) = test_sog();
    let textures = meta.load_textures(fetch_from(&files)).unwrap();
    let gaussians = decode_range(&meta, &textures, 0, 2).unwrap();
    let bounds = bounds_of(&meta);

    let p0 = position(&gaussians[0], &bounds);
    let p1 = position(&gaussians[1], &bounds);
    for (v, expected) in p0.iter().zip([-1.0f32, -2.0, -4.0]) {
        assert!((v - expected).abs() < 1e-3, "{v} != {expected}");
    }
    for (v, expected) in p1.iter().zip([1.0f32, 2.0, 4.0]) {
        assert!((v - expected).abs() < 1e-3, "{v} != {expected}");
    }

    for g in &gaussians {
        for s in scale(g) {
            assert!((s - (-2.0f32).exp()).abs() < 1e-6);
        }
    }

    assert!((opacity(&gaussians[0]) - 1.0).abs() < 1e-6);
    assert!((opacity(&gaussians[1]) - 0.2).abs() < 1e-2);

    for g in &gaussians {
        let quat = rotation(g);
        assert!((quat[0] - 1.0).abs() < 1e-2);
        for v in &quat[1..] {
            assert!(v.abs() < 1e-2);
        }
    }

    assert!((number(gaussians[0].spherical_harmonic.coefficients[0]) - 0.5).abs() < 1e-6);
    assert!((number(gaussians[1].spherical_harmonic.coefficients[0]) + 0.25).abs() < 1e-6);
}

#[test]
fn decodes_sub_range() {
    let (meta, files) = test_sog();
    let textures = meta.load_textures(fetch_from(&files)).unwrap();

    let all = decode_range(&meta, &textures, 0, 2).unwrap();
    let tail = decode_range(&meta, &textures, 1, 1).unwrap();

    assert_eq!(tail.len(), 1);
    assert_eq!(
        tail[0].position_visibility.position,
        all[1].position_visibility.position
    );

    assert!(decode_range(&meta, &textures, 2, 1).is_err());
}

#[test]
fn decodes_sh_rest_palette() {
    if SH_DEGREE == 0 {
        return;
    }

    let (mut meta, mut files) = test_sog();

    let coeffs = 3;
    let c_width = 64 * coeffs;
    let mut codebook = vec![0.0f32; 256];
    codebook[5] = 0.75;

    let mut centroids = vec![0u8; c_width * 4];
    for j in 0..coeffs {
        let idx = (coeffs + j) * 4;
        centroids[idx] = 5;
        centroids[idx + 1] = 5;
        centroids[idx + 2] = 5;
        centroids[idx + 3] = 255;
    }

    let labels = vec![1, 0, 0, 255, 1, 0, 0, 255];

    files.insert(
        "shN_centroids.webp".to_owned(),
        encode_webp(&centroids, c_width as u32, 1),
    );
    files.insert("shN_labels.webp".to_owned(), encode_webp(&labels, 2, 1));

    meta.sh_n = Some(SogShN {
        count: 2,
        bands: 1,
        codebook: all_bits(&codebook),
        files: vec!["shN_centroids.webp".to_owned(), "shN_labels.webp".to_owned()],
    });

    let textures = meta.load_textures(fetch_from(&files)).unwrap();
    let gaussians = decode_range(&meta, &textures, 0, 2).unwrap();

    for j in 0..coeffs {
        for ch in 0..SH_CHANNELS {
            let idx = (j + 1) * SH_CHANNELS + ch;
            let v = number(gaussians[0].spherical_harmonic.coefficients[idx]);
            assert!((v - 0.75).abs() < 1e-6, "coefficient {idx}: {v}");
        }
    }
}

fn bundle(prefix: &str, meta: &SogMeta, files: &HashMap<String, Vec<u8>>) -> Vec<u8> {
    let mut bytes = Vec::new();
    {
        let mut writer = zip::ZipWriter::new(std::io::Cursor::new(&mut bytes));
        let options: zip::write::SimpleFileOptions = Default::default();
        writer.start_file(format!("{prefix}meta.json"), options).unwrap();
        writer.write_all(meta_json(meta).as_bytes()).unwrap();
        for (name, data) in files {
            writer.start_file(format!("{prefix}{name}"), options).unwrap();
            writer.write_all(data).unwrap();
        }
        writer.finish().unwrap();
    }
    bytes
}

#[test]
fn parses_bundle() {
    let (meta, files) = test_sog();
    let bytes = bundle("scene/", &meta, &files);
    let cloud = parse_sog_bundle(&bytes, parse_meta).unwrap();
    assert_eq!(cloud.len(), 32);
}

#[test]
fn bundle_without_a_directory_gives_the_same_splats() {
    let (meta, files) = test_sog();
    let cloud = parse_sog_bundle(&bundle("", &meta, &files), parse_meta).unwrap();
    assert_eq!(cloud.len(), 32);
    assert!(!cloud.is_empty());
    assert_eq!(cloud.position_visibility[0].position, Some([0, 0, 0]));
    assert_eq!(cloud.position_visibility[1].position, Some([65535, 65535, 65535]));
    assert_eq!(cloud.position_visibility[2].position, None);
    assert_eq!(cloud.scale_opacity[1].opacity, 51);
    assert_eq!(cloud.scale_opacity[31].opacity, 0);
    assert!(cloud.scale_opacity[31].log_scale.is_none());
    assert_eq!(number(cloud.bounds.maxs[0]), log_transform(1.0));
}

#[test]
fn bundle_problems_are_told_apart() {
    let (meta, mut files) = test_sog();

    let broken = parse_sog_bundle(b"no archive", parse_meta).unwrap_err();
    assert!(matches!(broken, ReadProblem::BundleOpen { .. }));
    assert!(broken.message().starts_with("failed to open .sog bundle: "));
    assert!(broken.is_invalid_data());

    files.remove("sh0.webp");
    let missing = parse_sog_bundle(&bundle("a/b/", &meta, &files), parse_meta).unwrap_err();
    assert_eq!(missing.message(), "sh0.webp not found in .sog bundle");
    assert!(missing.is_invalid_data());

    let refused = entry_reply("x/y", Err("sealed".to_owned())).unwrap_err();
    assert_eq!(refused.message(), "failed to read x/y from .sog bundle: sealed");

    let torn = entry_reply("x/y", Ok(Err((false, "torn".to_owned())))).unwrap_err();
    assert_eq!(torn.message(), "torn");
    assert!(!torn.is_invalid_data());
    let altered = entry_reply("x/y", Ok(Err((true, "altered".to_owned())))).unwrap_err();
    assert_eq!(altered.message(), "altered");
    assert!(altered.is_invalid_data());

    assert_eq!(entry_reply("x/y", Ok(Ok(vec![1, 2]))).unwrap(), vec![1, 2]);
}

#[test]
fn altered_entries_are_invalid_data() {
    let mut bytes = Vec::new();
    let mut writer = zip::ZipWriter::new(std::io::Cursor::new(&mut bytes));
    let options = zip::write::SimpleFileOptions::default()
        .compression_method(zip::CompressionMethod::Stored);
    writer.start_file("meta.json", options).unwrap();
    writer.write_all(b"stored text").unwrap();
    writer.finish().unwrap();
    let at = bytes.windows(6).position(|part| part == b"stored").unwrap();
    bytes[at] = b'S';

    let altered = parse_sog_bundle(&bytes, parse_meta).unwrap_err();
    assert!(matches!(altered, ReadProblem::Io { invalid_data: true, .. }));
    assert_eq!(altered.message(), "Invalid checksum");
    assert!(altered.is_invalid_data());
}

#[test]
fn bundles_read_as_their_files_under_any_directory() {
    let (meta, files) = test_sog();
    let alone = parse_sog(meta_json(&meta).as_bytes(), parse_meta, fetch_from(&files)).unwrap();
    for prefix in ["", "scene/", "a/b/c/"] {
        let cloud = parse_sog_bundle(&bundle(prefix, &meta, &files), parse_meta).unwrap();
        assert_eq!(format!("{cloud:?}"), format!("{alone:?}"));
    }
    let mut bytes = Vec::new();
    zip::ZipWriter::new(std::io::Cursor::new(&mut bytes)).finish().unwrap();
    let empty = parse_sog_bundle(&bytes, parse_meta).unwrap_err();
    assert_eq!(empty.message(), "meta.json not found in .sog bundle");
    assert!(empty.is_invalid_data());
}

#[test]
fn entries_resolve_in_order() {
    let names = vec![
        "a/xmeta.json".to_owned(),
        "a/meta.json".to_owned(),
        "meta.json".to_owned(),
    ];
    assert_eq!(resolve(&names, "meta.json"), Some("a/meta.json"));
    assert_eq!(resolve(&names, "a/meta.json"), Some("a/meta.json"));
    assert_eq!(resolve(&names, "b.webp"), None);
}

#[test]
fn listed_bundle_reads_through_its_reader() {
    let (meta, files) = test_sog();
    let mut names: Vec<String> = files.keys().map(|n| format!("d/{n}")).collect();
    names.push("d/meta.json".to_owned());
    let json = meta_json(&meta);
    let read = |path: &str| {
        let name = path.strip_prefix("d/").unwrap();
        if name == "meta.json" {
            Ok(Ok(json.clone().into_bytes()))
        } else {
            files.get(name).cloned().map(Ok).ok_or("gone".to_owned())
        }
    };
    let cloud = parse_listed_bundle(Ok(names.clone()), read, parse_meta).unwrap();
    assert_eq!(cloud.len(), 32);
    let refused = parse_listed_bundle(Err("locked".to_owned()), read, parse_meta).unwrap_err();
    assert_eq!(refused.message(), "failed to open .sog bundle: locked");
}

#[test]
fn reads_a_whole_unit() {
    let (meta, files) = test_sog();
    let cloud = parse_sog(meta_json(&meta).as_bytes(), parse_meta, fetch_from(&files)).unwrap();
    assert_eq!(cloud.len(), 32);
    assert_eq!(cloud.scale_opacity[0].opacity, 255);
}

#[test]
fn rejects_other_meta() {
    let (mut meta, files) = test_sog();
    let unparsed = parse_sog(b"{", parse_meta, fetch_from(&files)).unwrap_err();
    assert!(matches!(unparsed, ReadProblem::MetaParse { .. }));
    assert!(unparsed.message().starts_with("failed to parse SOG meta.json: "));

    meta.version = 1;
    let old = SogMeta::from_json(meta_json(&meta).as_bytes(), parse_meta).unwrap_err();
    assert_eq!(old.message(), "unsupported SOG meta version: 1 (only v2 supported)");
    assert!(SogMeta::checked(Err("odd".to_owned())).is_err());
}

#[test]
fn lists_textures_in_order() {
    let (mut meta, _) = test_sog();
    assert_eq!(
        meta.texture_files(),
        vec!["means_l.webp", "means_u.webp", "quats.webp", "scales.webp", "sh0.webp"]
    );
    assert!(meta.all_textures_listed());
    meta.sh_n = Some(SogShN {
        count: 1,
        bands: 2,
        codebook: Vec::new(),
        files: vec!["c.webp".to_owned()],
    });
    assert_eq!(meta.texture_files().last(), Some(&"c.webp"));
    assert!(!meta.all_textures_listed());
    meta.sh_n.as_mut().unwrap().bands = 4;
    assert!(meta.all_textures_listed());
    meta.quats.files.clear();
    assert!(!meta.all_textures_listed());
    meta.means.files.pop();
    assert!(meta.all_textures_listed());
}

#[test]
fn loading_stops_at_the_first_problem() {
    let (meta, files) = test_sog();

    let mut asked = Vec::new();
    let answer = meta.load_textures(|name: &str| -> Reply {
        asked.push(name.to_owned());
        if name == "quats.webp" {
            Err(ReadProblem::Io { reason: "unreadable".to_owned(), invalid_data: false })
        } else {
            Ok(files[name].clone())
        }
    });
    assert_eq!(answer.unwrap_err().message(), "unreadable");
    assert_eq!(asked, vec!["means_l.webp", "means_u.webp", "quats.webp"]);
}

#[test]
fn loading_problems_are_told_apart() {
    let (mut meta, mut files) = test_sog();

    let mut few = meta.clone();
    few.means.files.pop();
    assert_eq!(
        few.load_textures(fetch_from(&files)).unwrap_err().message(),
        "SOG means requires two files (low + high bytes)"
    );

    let mut many = meta.clone();
    many.count = 3;
    assert_eq!(
        many.load_textures(fetch_from(&files)).unwrap_err().message(),
        "SOG texture means_l.webp too small for count"
    );

    meta.sh_n = Some(SogShN {
        count: 1,
        bands: 1,
        codebook: Vec::new(),
        files: vec!["c.webp".to_owned(), "l.webp".to_owned()],
    });
    files.insert("c.webp".to_owned(), encode_webp(&[0; 8], 2, 1));
    files.insert("l.webp".to_owned(), encode_webp(&[0; 4], 1, 1));
    assert_eq!(
        meta.load_textures(fetch_from(&files)).unwrap_err().message(),
        "SOG shN labels texture too small for count"
    );
    files.insert("l.webp".to_owned(), encode_webp(&[0; 8], 2, 1));
    assert_eq!(
        meta.load_textures(fetch_from(&files)).unwrap_err().message(),
        "SOG shN centroids width 2 does not match expected 192 for 1-band palette"
    );

    files.insert("sh0.webp".to_owned(), b"no picture".to_vec());
    let undecoded = meta.load_textures(fetch_from(&files)).unwrap_err();
    assert!(undecoded.message().starts_with("failed to decode sh0.webp: "));
}

#[test]
fn decodes_webp_pictures() {
    let pixels = vec![1, 2, 3, 255, 5, 6, 7, 255, 9, 10, 11, 255, 13, 14, 15, 255];
    let (rgba, width) = decode_webp("p.webp", &encode_webp(&pixels, 2, 2)).unwrap();
    assert_eq!(rgba, pixels);
    assert_eq!(width, 2);
    assert_eq!(
        name_texture("p.webp", Err("blurred".to_owned())).unwrap_err().message(),
        "failed to decode p.webp: blurred"
    );
    assert_eq!(name_texture("p.webp", Ok((vec![4], 1))).unwrap(), (vec![4], 1));
}

fn chunk(tag: &[u8; 4], content: &[u8]) -> Vec<u8> {
    let mut bytes = tag.to_vec();
    bytes.extend((content.len() as u32).to_le_bytes());
    bytes.extend(content);
    if content.len() % 2 == 1 {
        bytes.push(0);
    }
    bytes
}

/// An animation of one frame: an alpha channel, stored as `coding` says, then a
/// picture of two by two.
fn alpha_animation(width: u8, height: u8, coding: u8, alpha: &[u8]) -> Vec<u8> {
    let picture = [
        0xd0, 0x01, 0x00, 0x9d, 0x01, 0x2a, 0x02, 0x00, 0x02, 0x00, 0x02, 0x00, 0x34, 0x25, 0xa0,
        0x02, 0x74, 0xba, 0x01, 0xf8, 0x00, 0x03, 0xb0, 0x00, 0xfe, 0xf0, 0xc4, 0x0b, 0xff, 0x20,
        0xb9, 0x61, 0x75, 0xc8, 0xd7, 0xff, 0x20, 0x3f, 0xe4, 0x07, 0xfc, 0x80, 0xff, 0xf8, 0xf2,
        0x00, 0x00, 0x00,
    ];
    let size = [width - 1, 0, 0, height - 1, 0, 0];
    let mut frame = vec![0; 6];
    frame.extend(size);
    frame.extend([1, 0, 0, 2]);
    let mut channel = vec![coding];
    channel.extend(alpha);
    channel.resize(64, 0);
    frame.extend(chunk(b"ALPH", &channel));
    frame.extend(chunk(b"VP8 ", &picture));

    let mut header = vec![0x12, 0, 0, 0];
    header.extend(size);
    let mut content = b"WEBP".to_vec();
    content.extend(chunk(b"VP8X", &header));
    content.extend(chunk(b"ANIM", &[0; 6]));
    content.extend(chunk(b"ANMF", &frame));
    chunk(b"RIFF", &content)
}

#[test]
fn alpha_frames_that_their_picture_overruns_are_refused() {
    for (width, height) in [(1, 1), (3, 1), (8, 1)] {
        let bytes = alpha_animation(width, height, 0, &[9; 8]);
        assert!(find_overrun(&bytes).is_some());
        assert_eq!(
            decode_webp("p.webp", &bytes).unwrap_err().message(),
            "failed to decode p.webp: alpha frame and picture differ in size"
        );
    }
    for (width, height) in [(2, 2), (4, 1), (5, 1)] {
        let bytes = alpha_animation(width, height, 0, &[10, 20, 30, 40, 50]);
        assert!(find_overrun(&bytes).is_none());
        let (rgba, decoded_width) = decode_webp("p.webp", &bytes).unwrap();
        assert_eq!(decoded_width, width as usize);
        assert_eq!(rgba.len(), 4 * width as usize * height as usize);
        let alpha: Vec<u8> = rgba.chunks(4).take(4).map(|pixel| pixel[3]).collect();
        assert_eq!(alpha, vec![10, 20, 30, 40]);
    }
    assert!(find_overrun(b"RIFF").is_none());
    assert!(find_overrun(&encode_webp(&[0; 4], 1, 1)).is_none());
}

#[test]
fn what_the_decoder_refuses_first_is_in_its_words() {
    let refused = |bytes: &[u8], words: &str| {
        assert!(find_overrun(bytes).is_none());
        let message = decode_webp("p.webp", bytes).unwrap_err().message();
        assert!(message.starts_with("failed to decode p.webp: "));
        assert!(message.ends_with(words), "{message}");
    };
    let whole = alpha_animation(1, 1, 0, &[9]);
    refused(&alpha_animation(1, 1, 2, &[9]), "Invalid compression method");
    refused(&alpha_animation(1, 1, 64, &[9]), "Reserved bits set");
    refused(&whole[..whole.len() - 40], "failed to fill whole buffer");

    let at = whole.windows(4).position(|part| part == b"ANMF").unwrap();
    let with = |offset: usize, value: u8| {
        let mut bytes = whole.clone();
        bytes[offset] = value;
        bytes
    };
    refused(&with(at + 8, 1), "Frame outside image");
    refused(&with(at + 23, 4), "Reserved bits set");
    refused(&with(at - 14, b'X'), "An expected chunk was missing");
    refused(&with(20, 0x3a), "An expected chunk was missing");
    let picture = whole.windows(4).position(|part| part == b"VP8 ").unwrap() + 8;
    refused(&with(picture + 3, 0), "Invalid VP8 magic: [0, 1, 2a]");
    refused(&with(picture + 10, 0x82), "Invalid VP8 color space: 1");

    let broken = |bytes: &[u8], words: &str| {
        assert!(find_overrun(bytes).is_some());
        let message = decode_webp("p.webp", bytes).unwrap_err().message();
        assert!(message.ends_with(words), "{message}");
    };
    broken(&alpha_animation(1, 1, 1, &[]), "Invalid Huffman code");
    broken(&with(picture + 1, 4), "Not enough VP8 init data");
}

/// Bits, the first of a byte being its lowest.
fn push_bits(bits: &mut Vec<bool>, value: u32, count: u32) {
    for k in 0..count {
        bits.push((value >> k) & 1 == 1);
    }
}

#[test]
fn overfull_prefix_codes_are_refused() {
    let mut lengths = vec![1u32, 1, 1];
    lengths.extend(2..15);
    lengths.extend([15, 15]);
    lengths.resize(280, 0);

    let mut bits = Vec::new();
    push_bits(&mut bits, 0x2f, 8);
    push_bits(&mut bits, 0, 32);
    // no transform, no cache, one group; a code of its own with all lengths given
    push_bits(&mut bits, 0, 4);
    push_bits(&mut bits, 15, 4);
    for symbol in [17, 18, 0, 1, 2, 3, 4, 5, 16, 6, 7, 8, 9, 10, 11, 12, 13, 14, 15] {
        push_bits(&mut bits, if symbol < 16 { 4 } else { 0 }, 3);
    }
    push_bits(&mut bits, 0, 1);
    for length in lengths {
        for k in (0..4).rev() {
            bits.push((length >> k) & 1 == 1);
        }
    }
    let mut data = vec![0u8; bits.len() / 8 + 64];
    for (k, bit) in bits.iter().enumerate() {
        if *bit {
            data[k / 8] |= 1 << (k % 8);
        }
    }
    let mut content = b"WEBP".to_vec();
    content.extend(chunk(b"VP8L", &data));
    let message = decode_webp("p.webp", &chunk(b"RIFF", &content)).unwrap_err().message();
    assert!(message.ends_with("Invalid Huffman code"), "{message}");
}

#[test]
fn range_out_of_bounds_is_worded() {
    let (meta, files) = test_sog();
    let textures = meta.load_textures(fetch_from(&files)).unwrap();
    assert_eq!(
        decode_range(&meta, &textures, 1, 2).unwrap_err().message(),
        "SOG range 1..3 out of bounds (count 2)"
    );
    assert!(decode_range(&meta, &textures, 2, 0).unwrap().is_empty());
}

#[test]
fn sub_range_is_a_slice_of_the_whole() {
    let (meta, files) = test_sog();
    let textures = meta.load_textures(fetch_from(&files)).unwrap();
    let all = decode_range(&meta, &textures, 0, 2).unwrap();
    for offset in 0..2 {
        let part = decode_range(&meta, &textures, offset, 2 - offset).unwrap();
        for (i, splat) in part.iter().enumerate() {
            assert_eq!(format!("{splat:?}"), format!("{:?}", all[offset + i]));
        }
    }
}

#[test]
fn rotations_follow_their_tag() {
    let (mut meta, mut files) = test_sog();
    meta.count = 1;
    for (tag, place) in [(252u8, 0usize), (253, 1), (254, 2), (255, 3)] {
        files.insert("quats.webp".to_owned(), encode_webp(&[10, 20, 30, tag], 1, 1));
        let textures = meta.load_textures(fetch_from(&files)).unwrap();
        let splat = decode_range(&meta, &textures, 0, 1).unwrap()[0];
        let mut others = Vec::new();
        for (k, component) in splat.rotation.rotation.iter().enumerate() {
            if k == place {
                assert_eq!(*component, RotationComponent::Largest);
            } else {
                others.push(*component);
            }
        }
        assert_eq!(
            others,
            vec![
                RotationComponent::Packed(10),
                RotationComponent::Packed(20),
                RotationComponent::Packed(30)
            ]
        );
    }
    files.insert("quats.webp".to_owned(), encode_webp(&[10, 20, 30, 251], 1, 1));
    let textures = meta.load_textures(fetch_from(&files)).unwrap();
    let splat = decode_range(&meta, &textures, 0, 1).unwrap()[0];
    assert_eq!(splat.rotation.rotation[0], RotationComponent::One);
    assert_eq!(splat.rotation.rotation[3], RotationComponent::Zero);
}

#[test]
fn codes_past_a_codebook_are_zero() {
    let (mut meta, files) = test_sog();
    meta.scales.codebook.truncate(7);
    meta.sh0.codebook.truncate(3);
    let textures = meta.load_textures(fetch_from(&files)).unwrap();
    let splat = decode_range(&meta, &textures, 0, 1).unwrap()[0];
    assert_eq!(splat.scale_opacity.log_scale.unwrap()[0].bits, 0);
    assert_eq!(splat.spherical_harmonic.coefficients[0].bits, 0);
}

#[test]
fn pads_to_full_blocks() {
    assert_eq!(pad_to_multiple_of_32(Vec::new()).len(), 0);
    assert_eq!(pad_to_multiple_of_32(vec![Gaussian3d::default(); 1]).len(), 32);
    assert_eq!(pad_to_multiple_of_32(vec![Gaussian3d::default(); 32]).len(), 32);
    assert_eq!(pad_to_multiple_of_32(vec![Gaussian3d::default(); 33]).len(), 64);
    assert_eq!(padded_count(0), Some(0));
    assert_eq!(padded_count(6), Some(32));
    assert_eq!(padded_count(usize::MAX), None);
    let padding = Gaussian3d::default();
    assert!(padding.position_visibility.position.is_none());
    assert_eq!(padding.spherical_harmonic.coefficients.len(), SH_COEFF_COUNT);
}
