//! What the viewer decides.

use gaussian_splat_stream::viewer::controls::{
    held_direction, hint_update, mode_hint, moves_focus, plan_click, plan_fly_toggle,
    plan_screenshot, rotation_label, rotation_steps, ButtonLook, FlyInput, FlyMove, FlyToggle,
    MoveAction, PanelAction, SceneAxis, Touch,
};
use gaussian_splat_stream::viewer::export::{
    camera_export_name, export_file_name, export_line, plan_export, ExportCandidate, ExportOutcome,
};
use gaussian_splat_stream::viewer::input::{
    choose_input, decode_hex, decode_percent_encoded, parse_input_file,
};
use gaussian_splat_stream::viewer::overlay::{plan_overlay, OverlayStep, StreamedProgress};
use gaussian_splat_stream::viewer::saved_view::{saved_view_line, saved_view_url};
use gaussian_splat_stream::viewer::scene::{
    check_args, noise_now, overrides_render_mode, particle_line, plan_particles, plan_parts,
    plan_scene, plan_scene_camera, CloudSource, GaussianMode, LoadProgress, ParticlePlan,
    SceneCameraStep, ScenePlan, ViewerArgs, ViewerFeatures, ViewerPart,
};

#[test]
fn decodes_percent_encoded_input_url() {
    let encoded = "https%3A%2F%2Fmitchell.mosure.me%2Ftrellis.glb";
    let decoded = parse_input_file(encoded);
    assert_eq!(decoded, "https://mitchell.mosure.me/trellis.glb");
}

#[test]
fn keeps_plain_relative_path() {
    let input = "trellis.glb";
    let parsed = parse_input_file(input);
    assert_eq!(parsed, "trellis.glb");
}

#[test]
fn decodes_base64_input() {
    assert_eq!(parse_input_file("aHR0cHM6Ly9hLmIvYy5nbGI="), "https://a.b/c.glb");
    assert_eq!(parse_input_file("_w=="), "_w==");
    assert_eq!(choose_input("x", Some(vec![0x61, 0x62])), "ab");
    assert_eq!(choose_input("x", Some(vec![0xff])), "x");
    assert_eq!(choose_input("a%20b", None), "a b");
    assert_eq!(choose_input("a%2", None), "a%2");
}

#[test]
fn percent_decoding_is_strict() {
    assert_eq!(decode_percent_encoded("%41%7a"), Some("Az".to_owned()));
    assert_eq!(decode_percent_encoded("%c3%A9"), Some("é".to_owned()));
    assert_eq!(decode_percent_encoded("plain"), None);
    assert_eq!(decode_percent_encoded("%4"), None);
    assert_eq!(decode_percent_encoded("%"), None);
    assert_eq!(decode_percent_encoded("%zz"), None);
    assert_eq!(decode_percent_encoded("%ff"), None);
    assert_eq!(decode_percent_encoded("a%2525"), Some("a%25".to_owned()));
    assert_eq!(decode_hex(b'0'), Some(0));
    assert_eq!(decode_hex(b'f'), Some(15));
    assert_eq!(decode_hex(b'A'), Some(10));
    assert_eq!(decode_hex(b'g'), None);
}

fn args() -> ViewerArgs {
    ViewerArgs {
        input_scene: None,
        input_lod: None,
        input_cloud: None,
        input_cloud_target: None,
        gaussian_mode: GaussianMode::Gaussian3d,
        gaussian_count: 0,
        gaussian_seed: None,
        particle_count: 0,
        splat_budget: 0,
        composite: false,
        press_esc_close: false,
        press_s_screenshot: false,
        show_axes: false,
        show_fps: false,
    }
}

fn features() -> ViewerFeatures {
    ViewerFeatures {
        morph_interpolate: false,
        material_noise: false,
        morph_particles: false,
        query_select: false,
        query_sparse: false,
        page: false,
    }
}

#[test]
fn scenes_come_before_streamed_scenes_and_clouds() {
    let mut given = args();
    given.gaussian_count = 3;
    given.input_cloud = Some("c.ply".to_owned());
    given.input_lod = Some("d/lod-meta.json".to_owned());
    given.splat_budget = 9;
    given.composite = true;
    given.input_scene = Some("s.glb".to_owned());
    assert!(overrides_render_mode(&given));

    let plan = plan_scene(&given, &features());
    assert!(matches!(&plan, ScenePlan::Scene { uri } if uri == "s.glb"));
    assert_eq!(plan.name(), "gaussian_scene");
    assert_eq!(plan.lines(), vec!["loading s.glb"]);
    assert!(!plan.shows_axes());

    given.input_scene = None;
    assert!(!overrides_render_mode(&given));
    let plan = plan_scene(&given, &features());
    match &plan {
        ScenePlan::Lod { uri, settings } => {
            assert_eq!(uri, "d/lod-meta.json");
            assert_eq!(settings.splat_budget, 9);
            assert!(settings.composite);
            assert_eq!(settings.cooldown_frames, 100);
        }
        _ => unreachable!(),
    }
    assert_eq!(plan.name(), "gaussian_lod_scene");
    assert_eq!(plan.lines(), vec!["loading streamed SOG scene d/lod-meta.json"]);

    given.input_lod = None;
    given.gaussian_seed = Some(4);
    let plan = plan_scene(&given, &features());
    assert!(matches!(
        &plan,
        ScenePlan::Cloud3d { source: CloudSource::Random { count: 3, seed: Some(4) }, target: None }
    ));
    assert_eq!(plan.name(), "gaussian_cloud_3d");
    assert_eq!(plan.lines(), vec!["generating 3 gaussians"]);
    assert!(plan.shows_axes());

    given.gaussian_count = 0;
    given.gaussian_mode = GaussianMode::Gaussian4d;
    let plan = plan_scene(&given, &features());
    assert!(matches!(&plan, ScenePlan::Cloud4d { source: CloudSource::Load { uri } } if uri == "c.ply"));
    assert_eq!(plan.name(), "gaussian_cloud_4d");

    given.input_cloud = None;
    given.gaussian_mode = GaussianMode::Gaussian2d;
    let plan = plan_scene(&given, &features());
    assert!(matches!(&plan, ScenePlan::Cloud3d { source: CloudSource::TestModel, target: None }));
    assert!(plan.lines().is_empty());
}

#[test]
fn interpolation_needs_its_feature() {
    let mut given = args();
    given.input_cloud = Some("a.ply".to_owned());
    given.input_cloud_target = Some("b.ply".to_owned());
    assert_eq!(
        check_args(&given, &features()),
        Err("`--input-cloud-target` requires the `morph_interpolate` feature")
    );
    assert_eq!(check_args(&args(), &features()), Ok(()));

    let with = ViewerFeatures { morph_interpolate: true, ..features() };
    assert_eq!(check_args(&given, &with), Ok(()));
    let plan = plan_scene(&given, &with);
    assert_eq!(plan.name(), "gaussian_cloud_3d_binary");
    assert_eq!(plan.lines(), vec!["loading a.ply", "loading b.ply"]);
}

#[test]
fn parts_run_on_demand() {
    assert!(plan_parts(&args(), &features()).is_empty());
    let mut given = args();
    given.press_s_screenshot = true;
    given.show_fps = true;
    let with = ViewerFeatures { query_sparse: true, page: true, ..features() };
    assert_eq!(
        plan_parts(&given, &with),
        vec![
            ViewerPart::Screenshots,
            ViewerPart::FrameRate,
            ViewerPart::LoadingOverlay,
            ViewerPart::SparseSelect
        ]
    );
}

#[test]
fn particles_move_the_one_cloud() {
    assert_eq!(plan_particles(0, 5), ParticlePlan::Nothing);
    assert_eq!(plan_particles(1, 0), ParticlePlan::Nothing);
    assert_eq!(plan_particles(1, 5), ParticlePlan::GenerateAndAttach);
    assert_eq!(plan_particles(2, 5), ParticlePlan::Generate);
    assert_eq!(particle_line(5), "generating 5 particle behaviors");
    assert!(!noise_now(LoadProgress::Loading));
    assert!(noise_now(LoadProgress::Failed));
}

#[test]
fn scene_cameras_are_taken_over_once_loaded() {
    let plan = plan_scene_camera;
    assert_eq!(plan(LoadProgress::Loading, true, true, true), SceneCameraStep::Wait);
    assert_eq!(plan(LoadProgress::Loaded, false, true, true), SceneCameraStep::Wait);
    assert_eq!(plan(LoadProgress::Loaded, true, true, true), SceneCameraStep::TakeOver);
    assert_eq!(plan(LoadProgress::Unmanaged, true, true, false), SceneCameraStep::Done);
    assert_eq!(plan(LoadProgress::Loaded, true, false, true), SceneCameraStep::Done);
}

#[test]
fn hints_follow_the_mode() {
    assert!(mode_hint(true).starts_with("fly mode"));
    assert_eq!(hint_update(mode_hint(false), false), None);
    assert_eq!(hint_update(mode_hint(false), true), Some(mode_hint(true)));
    assert_eq!(plan_fly_toggle(0, Some(true)), FlyToggle::Stay);
    assert_eq!(plan_fly_toggle(2, None), FlyToggle::Stay);
    assert_eq!(plan_fly_toggle(2, Some(true)), FlyToggle::ToOrbit);
    assert_eq!(plan_fly_toggle(1, Some(false)), FlyToggle::ToFly);
    assert_eq!(FlyToggle::ToOrbit.line(), Some("orbit mode"));
    assert_eq!(FlyToggle::Stay.line(), None);
}

#[test]
fn flying_adds_up_held_keys() {
    let none = FlyInput {
        key_w: false,
        key_s: false,
        key_a: false,
        key_d: false,
        key_e: false,
        key_q: false,
        shift_left: false,
        shift_right: false,
        mouse_left: false,
        mouse_right: false,
    };
    assert!(none.moves().is_empty());
    assert!(!none.looks());
    assert_eq!(none.boost(), 1);
    let some = FlyInput { key_s: true, key_a: true, key_q: true, shift_right: true, ..none };
    assert_eq!(some.moves(), vec![FlyMove::Back, FlyMove::Left, FlyMove::Down]);
    assert_eq!(some.boost(), 4);
    assert!(FlyInput { mouse_right: true, ..none }.looks());
}

#[test]
fn panel_buttons_act_when_pressed() {
    let rotate = PanelAction::Rotate { axis: SceneAxis::Y, degrees: -5 };
    assert_eq!(plan_click(Touch::Pressed, rotate), (ButtonLook::Active, Some(rotate)));
    assert_eq!(plan_click(Touch::Hovered, rotate), (ButtonLook::Hover, None));
    assert_eq!(plan_click(Touch::Away, rotate), (ButtonLook::Plain, None));
    let labels: Vec<String> = rotation_steps().iter().map(|d| rotation_label(*d)).collect();
    assert_eq!(labels, vec!["-90", "-5", "+5", "+90"]);
    assert_eq!(rotation_label(0), "0");
    assert_eq!(rotation_label(i32::MIN), "-2147483648");
}

#[test]
fn held_buttons_move_the_camera() {
    let forward = MoveAction { right: 0, up: 0, forward: 1 };
    let back = MoveAction { right: 0, up: 0, forward: -1 };
    let up = MoveAction { right: 0, up: 1, forward: 0 };
    assert_eq!(held_direction(&vec![(Touch::Hovered, forward)]), None);
    assert_eq!(held_direction(&vec![(Touch::Pressed, forward), (Touch::Pressed, back)]), None);
    let sum = held_direction(&vec![
        (Touch::Pressed, forward),
        (Touch::Away, back),
        (Touch::Pressed, up),
    ])
    .unwrap();
    assert_eq!((sum.right, sum.up, sum.forward), (0, 1, 1));
    assert!(moves_focus(false));
    assert!(!moves_focus(true));
}

#[test]
fn screenshots_are_named_by_frame() {
    assert_eq!(plan_screenshot(false, true, 120), Some("output_120.png".to_owned()));
    assert_eq!(plan_screenshot(true, true, 120), None);
    assert_eq!(plan_screenshot(false, false, 120), None);
}

#[test]
fn exports_name_what_has_no_name() {
    let cloud = |loaded: bool, name: Option<&str>| ExportCandidate {
        loaded,
        name: name.map(str::to_owned),
    };
    assert_eq!(
        plan_export(&vec![cloud(true, Some("a")), cloud(false, None), cloud(true, None)]),
        Some(vec![(0, "a".to_owned()), (2, "gaussian_cloud_2".to_owned())])
    );
    assert_eq!(plan_export(&vec![cloud(false, None)]), None);
    assert_eq!(camera_export_name(None), "viewer_camera");
    assert_eq!(camera_export_name(Some("c")), "c");
    assert_eq!(export_file_name(7), "gaussian_scene_7.glb");
    assert_eq!(
        export_line(&ExportOutcome::Failed { path: "p", reason: "full" }),
        "failed to save gaussian scene 'p': full"
    );
    assert_eq!(
        export_line(&ExportOutcome::NoDirectory { dir: "d", reason: "full" }),
        "failed to create export directory 'd': full"
    );
    assert_eq!(export_line(&ExportOutcome::Saved { path: "p" }), "saved gaussian scene to p");
    assert_eq!(export_line(&ExportOutcome::Nothing), "no gaussian clouds available to export");
    assert_eq!(
        export_line(&ExportOutcome::Unsupported),
        "GLB scene export is not supported on wasm32"
    );
}

#[test]
fn overlay_stays_until_every_leaf_is_shown() {
    let streamed = |leaves: Option<usize>, active: usize| Some(StreamedProgress { leaves, active });
    assert_eq!(plan_overlay(true, false, None, 99), OverlayStep::Keep);
    assert_eq!(plan_overlay(false, false, None, 99), OverlayStep::GiveUp);
    assert_eq!(plan_overlay(false, true, None, 10), OverlayStep::Keep);
    assert_eq!(plan_overlay(false, true, None, 11), OverlayStep::Finish);
    let step = plan_overlay(false, true, streamed(None, 0), 99);
    assert_eq!(step.status().unwrap(), "loading scene index…");
    assert!(!step.is_last());
    let step = plan_overlay(false, true, streamed(Some(4), 3), 99);
    assert_eq!(step.status().unwrap(), "loading scene… 3 / 4 chunks");
    assert!(!step.is_last());
    assert!(plan_overlay(false, true, streamed(Some(4), 4), 0).is_last());
    assert!(!plan_overlay(false, true, streamed(Some(0), 0), 0).is_last());
    assert!(OverlayStep::GiveUp.is_last());
}

#[test]
fn saved_views_replace_their_parameters() {
    assert_eq!(saved_view_line("1,2", None), "view saved: --camera-pose 1,2");
    assert_eq!(
        saved_view_line("1,2", Some("3")),
        "view saved: --camera-pose 1,2 --cloud-rotation 3"
    );
    assert_eq!(saved_view_url("/v", "", "1", None), "/v?camera_pose=1");
    assert_eq!(
        saved_view_url("/v", "??a=b&&camera_pose=0&cloud_rotation=9&c", "1", None),
        "/v?a=b&cloud_rotation=9&c&camera_pose=1"
    );
    let once = saved_view_url("/v", "?a=b&camera_pose=0&cloud_rotation=9&c", "1", Some("2"));
    assert_eq!(once, "/v?a=b&c&camera_pose=1&cloud_rotation=2");
    assert_eq!(
        saved_view_url("/v", once.strip_prefix("/v").unwrap(), "1", Some("2")),
        once
    );
    let bare = saved_view_url("/v", "", "4,5", None);
    assert_eq!(saved_view_url("/v", bare.strip_prefix("/v").unwrap(), "4,5", None), bare);
}
