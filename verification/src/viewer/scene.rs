//! Which scene the viewer shows, and which of its parts run.

use vstd::prelude::*;
use vstd::string::*;

use crate::float_bits::FloatBits;
use crate::stream::settings::{
    default_settings, LodSettings, FIVE_BITS, ONE_BITS, THREE_BITS,
};
use crate::text::{decimal, ends_with, push_index, starts_with};
use crate::viewer::input::{parse_input_file, stands_for, text_view};

verus! {

/// How splats are interpreted.
#[derive(Clone, Copy, Debug, PartialEq, Eq, Structural)]
pub enum GaussianMode {
    Gaussian2d,
    Gaussian3d,
    Gaussian4d,
}

/// The arguments that decide what the viewer does.
#[derive(Clone, Debug)]
pub struct ViewerArgs {
    pub input_scene: Option<String>,
    pub input_lod: Option<String>,
    pub input_cloud: Option<String>,
    pub input_cloud_target: Option<String>,
    pub gaussian_mode: GaussianMode,
    pub gaussian_count: usize,
    pub gaussian_seed: Option<u64>,
    pub particle_count: usize,
    /// zero for the budget of the default settings
    pub splat_budget: usize,
    pub composite: bool,
    pub press_esc_close: bool,
    pub press_s_screenshot: bool,
    pub show_axes: bool,
    pub show_fps: bool,
}

/// Parts that a build of the viewer has.
#[derive(Clone, Copy, Debug, PartialEq, Eq, Structural)]
pub struct ViewerFeatures {
    pub morph_interpolate: bool,
    pub material_noise: bool,
    pub morph_particles: bool,
    pub query_select: bool,
    pub query_sparse: bool,
    /// runs in a web page
    pub page: bool,
}

/// Where a cloud comes from.
#[derive(Debug)]
pub enum CloudSource<T> {
    Random { count: usize, seed: Option<u64> },
    Load { uri: T },
    TestModel,
}

/// What the viewer shows.
#[derive(Debug)]
pub enum ScenePlan<T> {
    /// a scene of several clouds
    Scene { uri: T },
    /// a streamed scene
    Lod { uri: T, settings: LodSettings },
    /// a cloud of flat or solid splats, interpolated with `target` if there is one
    Cloud3d { source: CloudSource<T>, target: Option<T> },
    /// a cloud of splats that change with time
    Cloud4d { source: CloudSource<T> },
}

impl View for CloudSource<String> {
    type V = CloudSource<Seq<char>>;

    open spec fn view(&self) -> CloudSource<Seq<char>> {
        match self {
            CloudSource::Random { count, seed } => CloudSource::Random {
                count: *count,
                seed: *seed,
            },
            CloudSource::Load { uri } => CloudSource::Load { uri: uri@ },
            CloudSource::TestModel => CloudSource::TestModel,
        }
    }
}

impl View for ScenePlan<String> {
    type V = ScenePlan<Seq<char>>;

    open spec fn view(&self) -> ScenePlan<Seq<char>> {
        match self {
            ScenePlan::Scene { uri } => ScenePlan::Scene { uri: uri@ },
            ScenePlan::Lod { uri, settings } => ScenePlan::Lod { uri: uri@, settings: *settings },
            ScenePlan::Cloud3d { source, target } => ScenePlan::Cloud3d {
                source: source@,
                target: text_view(*target),
            },
            ScenePlan::Cloud4d { source } => ScenePlan::Cloud4d { source: source@ },
        }
    }
}

/// What an input stands for.
pub open spec fn uri_of(input: Seq<char>) -> Seq<char> {
    stands_for(input)
}

/// Where the cloud comes from: random splats if any are asked for, else a file,
/// else the test model.
pub open spec fn source_of(args: ViewerArgs) -> CloudSource<Seq<char>> {
    if args.gaussian_count > 0 {
        CloudSource::Random { count: args.gaussian_count, seed: args.gaussian_seed }
    } else {
        match args.input_cloud {
            Some(input) => CloudSource::Load { uri: uri_of(input@) },
            None => CloudSource::TestModel,
        }
    }
}

/// The settings of a streamed scene.
pub open spec fn lod_settings_of(args: ViewerArgs) -> LodSettings {
    LodSettings {
        base_distance: FloatBits { bits: FIVE_BITS },
        multiplier: FloatBits { bits: THREE_BITS },
        update_distance: FloatBits { bits: ONE_BITS },
        forced_lod: None,
        cooldown_frames: 100,
        max_decodes_in_flight: 4,
        composite: args.composite,
        splat_budget: args.splat_budget,
    }
}

/// What the viewer shows: a scene if one is given, else a streamed scene, else a
/// cloud.
pub open spec fn plan_of_args(args: ViewerArgs, features: ViewerFeatures) -> ScenePlan<Seq<char>> {
    if args.input_scene is Some {
        ScenePlan::Scene { uri: uri_of(args.input_scene->0@) }
    } else if args.input_lod is Some {
        ScenePlan::Lod { uri: uri_of(args.input_lod->0@), settings: lod_settings_of(args) }
    } else {
        match args.gaussian_mode {
            GaussianMode::Gaussian4d => ScenePlan::Cloud4d { source: source_of(args) },
            _ => ScenePlan::Cloud3d {
                source: source_of(args),
                target: match args.input_cloud_target {
                    Some(input) => if features.morph_interpolate {
                        Some(uri_of(input@))
                    } else {
                        None
                    },
                    None => None,
                },
            },
        }
    }
}

/// Decides where the cloud comes from.
fn plan_source(args: &ViewerArgs) -> (r: CloudSource<String>)
    ensures
        r@ == source_of(*args),
{
    if args.gaussian_count > 0 {
        CloudSource::Random { count: args.gaussian_count, seed: args.gaussian_seed }
    } else {
        match &args.input_cloud {
            Some(input) => CloudSource::Load { uri: parse_input_file(input.as_str()) },
            None => CloudSource::TestModel,
        }
    }
}

/// Decides what the viewer shows.
pub fn plan_scene(args: &ViewerArgs, features: &ViewerFeatures) -> (r: ScenePlan<String>)
    ensures
        r@ == plan_of_args(*args, *features),
{
    if let Some(input) = &args.input_scene {
        return ScenePlan::Scene { uri: parse_input_file(input.as_str()) };
    }
    if let Some(input) = &args.input_lod {
        let mut settings = LodSettings::default();
        if args.splat_budget > 0 {
            settings.splat_budget = args.splat_budget;
        }
        settings.composite = args.composite;
        return ScenePlan::Lod { uri: parse_input_file(input.as_str()), settings };
    }
    match args.gaussian_mode {
        GaussianMode::Gaussian4d => ScenePlan::Cloud4d { source: plan_source(args) },
        _ => {
            let target = match &args.input_cloud_target {
                Some(input) => if features.morph_interpolate {
                    Some(parse_input_file(input.as_str()))
                } else {
                    None
                },
                None => None,
            };
            ScenePlan::Cloud3d { source: plan_source(args), target }
        },
    }
}

/// The name of what is shown.
pub open spec fn name_of(plan: ScenePlan<Seq<char>>) -> Seq<char> {
    match plan {
        ScenePlan::Scene { .. } => "gaussian_scene"@,
        ScenePlan::Lod { .. } => "gaussian_lod_scene"@,
        ScenePlan::Cloud3d { target, .. } => if target is Some {
            "gaussian_cloud_3d_binary"@
        } else {
            "gaussian_cloud_3d"@
        },
        ScenePlan::Cloud4d { .. } => "gaussian_cloud_4d"@,
    }
}

/// What is said about a cloud's source.
pub open spec fn source_lines(source: CloudSource<Seq<char>>) -> Seq<Seq<char>> {
    match source {
        CloudSource::Random { count, .. } => seq![
            "generating "@ + decimal(count as nat) + " gaussians"@,
        ],
        CloudSource::Load { uri } => seq!["loading "@ + uri],
        CloudSource::TestModel => Seq::empty(),
    }
}

/// What is said about what is shown, line by line.
pub open spec fn lines_of(plan: ScenePlan<Seq<char>>) -> Seq<Seq<char>> {
    match plan {
        ScenePlan::Scene { uri } => seq!["loading "@ + uri],
        ScenePlan::Lod { uri, .. } => seq!["loading streamed SOG scene "@ + uri],
        ScenePlan::Cloud3d { source, target } => source_lines(source) + match target {
            Some(uri) => seq!["loading "@ + uri],
            None => Seq::empty(),
        },
        ScenePlan::Cloud4d { source } => source_lines(source),
    }
}

/// The views of lines.
pub open spec fn line_views(lines: Seq<String>) -> Seq<Seq<char>> {
    lines.map_values(|line: String| line@)
}

/// Adds a line made of two parts.
fn say(lines: &mut Vec<String>, what: &str, uri: &String)
    ensures
        line_views(final(lines)@) == line_views(old(lines)@).push(what@ + uri@),
{
    let mut line = what.to_owned();
    line.append(uri.as_str());
    lines.push(line);
    assert(line_views(lines@) =~= line_views(old(lines)@).push(what@ + uri@));
}

/// Says what there is to say about a cloud's source.
fn say_source(lines: &mut Vec<String>, source: &CloudSource<String>)
    ensures
        line_views(final(lines)@) == line_views(old(lines)@) + source_lines(source@),
{
    match source {
        CloudSource::Random { count, .. } => {
            let mut line = String::new();
            line.append("generating ");
            push_index(&mut line, *count);
            line.append(" gaussians");
            assert(line@ =~= "generating "@ + decimal(*count as nat) + " gaussians"@);
            lines.push(line);
            assert(line_views(lines@) =~= line_views(old(lines)@) + source_lines(source@));
        },
        CloudSource::Load { uri } => {
            say(lines, "loading ", uri);
            assert(line_views(lines@) =~= line_views(old(lines)@) + source_lines(source@));
        },
        CloudSource::TestModel => {
            assert(line_views(lines@) =~= line_views(old(lines)@) + source_lines(source@));
        },
    }
}

/// Whether axes go with what is shown.
pub open spec fn takes_axes(plan: ScenePlan<Seq<char>>) -> bool {
    plan is Cloud3d || plan is Cloud4d
}

impl ScenePlan<String> {
    /// The name of what is shown.
    pub fn name(&self) -> (r: &'static str)
        ensures
            r@ == name_of(self@),
    {
        match self {
            ScenePlan::Scene { .. } => "gaussian_scene",
            ScenePlan::Lod { .. } => "gaussian_lod_scene",
            ScenePlan::Cloud3d { target, .. } => if target.is_some() {
                "gaussian_cloud_3d_binary"
            } else {
                "gaussian_cloud_3d"
            },
            ScenePlan::Cloud4d { .. } => "gaussian_cloud_4d",
        }
    }

    /// What is said about what is shown, line by line.
    pub fn lines(&self) -> (r: Vec<String>)
        ensures
            line_views(r@) == lines_of(self@),
    {
        let mut lines: Vec<String> = Vec::new();
        assert(line_views(lines@) =~= Seq::empty());
        match self {
            ScenePlan::Scene { uri } => {
                say(&mut lines, "loading ", uri);
            },
            ScenePlan::Lod { uri, .. } => {
                say(&mut lines, "loading streamed SOG scene ", uri);
            },
            ScenePlan::Cloud3d { source, target } => {
                say_source(&mut lines, source);
                if let Some(uri) = target {
                    say(&mut lines, "loading ", uri);
                }
            },
            ScenePlan::Cloud4d { source } => {
                say_source(&mut lines, source);
            },
        }
        assert(line_views(lines@) =~= lines_of(self@));
        lines
    }

    /// Whether axes go with what is shown: with single clouds only.
    pub fn shows_axes(&self) -> (r: bool)
        ensures
            r == takes_axes(self@),
    {
        match self {
            ScenePlan::Cloud3d { .. } => true,
            ScenePlan::Cloud4d { .. } => true,
            _ => false,
        }
    }
}

/// Whether a build can serve the arguments.
pub open spec fn can_serve(args: ViewerArgs, features: ViewerFeatures) -> bool {
    !(args.input_cloud_target is Some && !features.morph_interpolate)
}

/// Refuses arguments that the build cannot serve, in words.
pub fn check_args(args: &ViewerArgs, features: &ViewerFeatures) -> (r: Result<(), &'static str>)
    ensures
        r is Ok <==> can_serve(*args, *features),
        r matches Err(words) ==> words@
            == "`--input-cloud-target` requires the `morph_interpolate` feature"@,
{
    if args.input_cloud_target.is_some() && !features.morph_interpolate {
        Err("`--input-cloud-target` requires the `morph_interpolate` feature")
    } else {
        Ok(())
    }
}

/// Parts of the viewer that run only on demand.
#[derive(Clone, Copy, Debug, PartialEq, Eq, Structural)]
pub enum ViewerPart {
    EscapeCloses,
    Screenshots,
    Axes,
    FrameRate,
    LoadingOverlay,
    NoiseMaterial,
    ParticleBehavior,
    SelectionKeys,
    SparseSelect,
}

/// `part` if it is wanted.
pub open spec fn part_if(wanted: bool, part: ViewerPart) -> Seq<ViewerPart> {
    if wanted {
        seq![part]
    } else {
        Seq::empty()
    }
}

/// The parts that run, in the order in which they are added.
pub open spec fn parts_of(args: ViewerArgs, features: ViewerFeatures) -> Seq<ViewerPart> {
    part_if(args.press_esc_close, ViewerPart::EscapeCloses) + part_if(
        args.press_s_screenshot,
        ViewerPart::Screenshots,
    ) + part_if(args.show_axes, ViewerPart::Axes) + part_if(args.show_fps, ViewerPart::FrameRate)
        + part_if(features.page, ViewerPart::LoadingOverlay) + part_if(
        features.material_noise,
        ViewerPart::NoiseMaterial,
    ) + part_if(features.morph_particles, ViewerPart::ParticleBehavior) + part_if(
        features.query_select,
        ViewerPart::SelectionKeys,
    ) + part_if(features.query_sparse, ViewerPart::SparseSelect)
}

/// Adds a part if it is wanted.
fn add_part(parts: &mut Vec<ViewerPart>, wanted: bool, part: ViewerPart)
    ensures
        final(parts)@ == old(parts)@ + part_if(wanted, part),
{
    if wanted {
        parts.push(part);
    }
    assert(parts@ =~= old(parts)@ + part_if(wanted, part));
}

/// Lists the parts that run, in the order in which they are added.
pub fn plan_parts(args: &ViewerArgs, features: &ViewerFeatures) -> (r: Vec<ViewerPart>)
    ensures
        r@ == parts_of(*args, *features),
{
    let mut parts: Vec<ViewerPart> = Vec::new();
    add_part(&mut parts, args.press_esc_close, ViewerPart::EscapeCloses);
    add_part(&mut parts, args.press_s_screenshot, ViewerPart::Screenshots);
    add_part(&mut parts, args.show_axes, ViewerPart::Axes);
    add_part(&mut parts, args.show_fps, ViewerPart::FrameRate);
    add_part(&mut parts, features.page, ViewerPart::LoadingOverlay);
    add_part(&mut parts, features.material_noise, ViewerPart::NoiseMaterial);
    add_part(&mut parts, features.morph_particles, ViewerPart::ParticleBehavior);
    add_part(&mut parts, features.query_select, ViewerPart::SelectionKeys);
    add_part(&mut parts, features.query_sparse, ViewerPart::SparseSelect);
    assert(parts@ =~= parts_of(*args, *features));
    parts
}

/// What is done with particles.
#[derive(Clone, Copy, Debug, PartialEq, Eq, Structural)]
pub enum ParticlePlan {
    Nothing,
    /// behaviors are made, but there is no one cloud to move
    Generate,
    /// behaviors are made and move the one cloud
    GenerateAndAttach,
}

/// What is done with particles for so many clouds without them.
pub open spec fn particles_for(clouds: int, particle_count: int) -> ParticlePlan {
    if clouds == 0 || particle_count == 0 {
        ParticlePlan::Nothing
    } else if clouds == 1 {
        ParticlePlan::GenerateAndAttach
    } else {
        ParticlePlan::Generate
    }
}

/// Decides what is done with particles for so many clouds without them.
pub fn plan_particles(clouds: usize, particle_count: usize) -> (r: ParticlePlan)
    ensures
        r == particles_for(clouds as int, particle_count as int),
{
    if clouds == 0 || particle_count == 0 {
        ParticlePlan::Nothing
    } else if clouds == 1 {
        ParticlePlan::GenerateAndAttach
    } else {
        ParticlePlan::Generate
    }
}

/// What is said about particles.
pub open spec fn particle_text(particle_count: nat) -> Seq<char> {
    "generating "@ + decimal(particle_count) + " particle behaviors"@
}

/// What is said about particles.
pub fn particle_line(particle_count: usize) -> (r: String)
    ensures
        r@ == particle_text(particle_count as nat),
{
    let mut line = String::new();
    line.append("generating ");
    push_index(&mut line, particle_count);
    line.append(" particle behaviors");
    assert(line@ =~= "generating "@ + decimal(particle_count as nat) + " particle behaviors"@);
    line
}

/// How far an asset is.
#[derive(Clone, Copy, Debug, PartialEq, Eq, Structural)]
pub enum LoadProgress {
    /// not loaded by the asset server
    Unmanaged,
    NotLoaded,
    Loading,
    Loaded,
    Failed,
}

/// Whether a cloud gets its noise now.
pub open spec fn gets_noise(progress: LoadProgress) -> bool {
    !(progress is Loading)
}

/// Whether a cloud gets its noise now: not while it is loading.
pub fn noise_now(progress: LoadProgress) -> (r: bool)
    ensures
        r == gets_noise(progress),
{
    match progress {
        LoadProgress::Loading => false,
        _ => true,
    }
}

/// What is done about the camera of a scene.
#[derive(Clone, Copy, Debug, PartialEq, Eq, Structural)]
pub enum SceneCameraStep {
    /// the scene is not there yet
    Wait,
    /// nothing to take over: done
    Done,
    /// take over the scene's first camera: done
    TakeOver,
}

/// What is done about the camera of a scene.
pub open spec fn scene_camera_step(
    progress: LoadProgress,
    scene_there: bool,
    scene_has_camera: bool,
    one_viewer_camera: bool,
) -> SceneCameraStep {
    if !(progress is Unmanaged || progress is Loaded) || !scene_there {
        SceneCameraStep::Wait
    } else if scene_has_camera && one_viewer_camera {
        SceneCameraStep::TakeOver
    } else {
        SceneCameraStep::Done
    }
}

/// Decides what is done about the camera of a scene.
pub fn plan_scene_camera(
    progress: LoadProgress,
    scene_there: bool,
    scene_has_camera: bool,
    one_viewer_camera: bool,
) -> (r: SceneCameraStep)
    ensures
        r == scene_camera_step(progress, scene_there, scene_has_camera, one_viewer_camera),
{
    let arrived = match progress {
        LoadProgress::Unmanaged => true,
        LoadProgress::Loaded => true,
        _ => false,
    };
    if !arrived || !scene_there {
        SceneCameraStep::Wait
    } else if scene_has_camera && one_viewer_camera {
        SceneCameraStep::TakeOver
    } else {
        SceneCameraStep::Done
    }
}

/// Whether the render settings of a scene's clouds are replaced.
pub open spec fn replaces_render_settings(args: ViewerArgs) -> bool {
    args.input_scene is Some
}

/// Whether the render settings of a scene's clouds are replaced by those of the
/// arguments: whenever a scene was asked for.
pub fn overrides_render_mode(args: &ViewerArgs) -> (r: bool)
    ensures
        r == replaces_render_settings(*args),
{
    args.input_scene.is_some()
}

/// What is given first is shown: a scene whatever else is given, a streamed scene
/// unless a scene is given, and a cloud only if neither is. A scene or a cloud
/// loads what its own argument stands for.
pub proof fn scenes_come_first(args: ViewerArgs, features: ViewerFeatures, plan: ScenePlan<String>)
    requires
        plan@ == plan_of_args(args, features),
    ensures
        args.input_scene matches Some(input) ==> (plan matches ScenePlan::Scene { uri } && uri@
            == stands_for(input@)),
        args.input_scene is None ==> (args.input_lod matches Some(input) ==> (
        plan matches ScenePlan::Lod { uri, settings } && uri@ == stands_for(input@)
            && settings.composite == args.composite && settings.splat_budget == args.splat_budget)),
        args.input_scene is None && args.input_lod is None ==> {
            &&& args.gaussian_mode is Gaussian4d <==> plan is Cloud4d
            &&& !(args.gaussian_mode is Gaussian4d) <==> plan is Cloud3d
        },
{
}

/// The settings of a streamed scene are the usual ones, but for what the arguments
/// say of its cloud.
pub proof fn streamed_scenes_have_the_usual_settings(args: ViewerArgs)
    ensures
        lod_settings_of(args) == (LodSettings {
            composite: args.composite,
            splat_budget: args.splat_budget,
            ..default_settings()
        }),
{
}

/// A cloud comes from random splats, as many as are asked for and by the given seed;
/// with none asked for from its file; and without a file it is the test model. A
/// second cloud is loaded to change into exactly if it is given, the build can do
/// so and splats do not change with time.
pub proof fn clouds_come_from_their_arguments(
    args: ViewerArgs,
    features: ViewerFeatures,
    plan: ScenePlan<String>,
)
    requires
        plan@ == plan_of_args(args, features),
        args.input_scene is None,
        args.input_lod is None,
    ensures
        ({
            let source = match plan {
                ScenePlan::Cloud3d { source, .. } => source,
                ScenePlan::Cloud4d { source } => source,
                _ => arbitrary(),
            };
            &&& args.gaussian_count > 0 ==> (source matches CloudSource::Random { count, seed }
                && count == args.gaussian_count && seed == args.gaussian_seed)
            &&& args.gaussian_count == 0 && args.input_cloud is Some ==> (
            source matches CloudSource::Load { uri } && uri@ == stands_for(args.input_cloud->0@))
            &&& args.gaussian_count == 0 && args.input_cloud is None ==> source is TestModel
        }),
        plan matches ScenePlan::Cloud3d { target, .. } ==> {
            &&& target is Some <==> args.input_cloud_target is Some && features.morph_interpolate
            &&& target matches Some(uri) ==> uri@ == stands_for(args.input_cloud_target->0@)
        },
{
}

/// Where a part stands in the order in which parts are added.
pub open spec fn rank_of(part: ViewerPart) -> int {
    match part {
        ViewerPart::EscapeCloses => 0,
        ViewerPart::Screenshots => 1,
        ViewerPart::Axes => 2,
        ViewerPart::FrameRate => 3,
        ViewerPart::LoadingOverlay => 4,
        ViewerPart::NoiseMaterial => 5,
        ViewerPart::ParticleBehavior => 6,
        ViewerPart::SelectionKeys => 7,
        ViewerPart::SparseSelect => 8,
    }
}

/// Whether a part is asked for, by its argument or by the build.
pub open spec fn wants(args: ViewerArgs, features: ViewerFeatures, part: ViewerPart) -> bool {
    match part {
        ViewerPart::EscapeCloses => args.press_esc_close,
        ViewerPart::Screenshots => args.press_s_screenshot,
        ViewerPart::Axes => args.show_axes,
        ViewerPart::FrameRate => args.show_fps,
        ViewerPart::LoadingOverlay => features.page,
        ViewerPart::NoiseMaterial => features.material_noise,
        ViewerPart::ParticleBehavior => features.morph_particles,
        ViewerPart::SelectionKeys => features.query_select,
        ViewerPart::SparseSelect => features.query_sparse,
    }
}

/// Parts in their order, all before place `end`.
#[verifier::opaque]
spec fn ordered_below(parts: Seq<ViewerPart>, end: int) -> bool {
    &&& forall|i: int| 0 <= i < parts.len() ==> rank_of(#[trigger] parts[i]) < end
    &&& forall|i: int, j: int|
        0 <= i < j < parts.len() ==> rank_of(#[trigger] parts[i]) < rank_of(#[trigger] parts[j])
}

/// Parts with one more, if it is wanted.
#[verifier::opaque]
spec fn extended(parts: Seq<ViewerPart>, wanted: bool, next: ViewerPart) -> Seq<ViewerPart> {
    parts + part_if(wanted, next)
}

/// A later part behind earlier ones.
proof fn lemma_one_more_part(
    parts: Seq<ViewerPart>,
    wanted: bool,
    next: ViewerPart,
    part: ViewerPart,
)
    requires
        ordered_below(parts, rank_of(next)),
    ensures
        extended(parts, wanted, next).contains(part) <==> parts.contains(part) || (wanted && part
            == next),
        ordered_below(extended(parts, wanted, next), rank_of(next) + 1),
{
    reveal(ordered_below);
    reveal(extended);
    let all = parts + part_if(wanted, next);
    if wanted {
        assert(all[parts.len() as int] == next);
    } else {
        assert(all =~= parts);
    }
    if parts.contains(part) {
        let k = choose|k: int| 0 <= k < parts.len() && parts[k] == part;
        assert(all[k] == part);
    }
    if all.contains(part) && part != next {
        let k = choose|k: int| 0 <= k < all.len() && all[k] == part;
        assert(parts[k] == part);
    }
}

/// The parts that run, one after the other.
spec fn parts_in_turn(args: ViewerArgs, features: ViewerFeatures) -> Seq<ViewerPart> {
    let p0 = extended(Seq::empty(), args.press_esc_close, ViewerPart::EscapeCloses);
    let p1 = extended(p0, args.press_s_screenshot, ViewerPart::Screenshots);
    let p2 = extended(p1, args.show_axes, ViewerPart::Axes);
    let p3 = extended(p2, args.show_fps, ViewerPart::FrameRate);
    let p4 = extended(p3, features.page, ViewerPart::LoadingOverlay);
    let p5 = extended(p4, features.material_noise, ViewerPart::NoiseMaterial);
    let p6 = extended(p5, features.morph_particles, ViewerPart::ParticleBehavior);
    let p7 = extended(p6, features.query_select, ViewerPart::SelectionKeys);
    extended(p7, features.query_sparse, ViewerPart::SparseSelect)
}

/// These are the parts that run.
proof fn lemma_parts_in_turn(args: ViewerArgs, features: ViewerFeatures)
    ensures
        parts_in_turn(args, features) == parts_of(args, features),
{
    reveal(extended);
    let first = part_if(args.press_esc_close, ViewerPart::EscapeCloses);
    assert(Seq::<ViewerPart>::empty() + first =~= first);
}

/// A part runs exactly if it is asked for, once, and parts are added in their order.
pub proof fn wanted_parts_run(args: ViewerArgs, features: ViewerFeatures, part: ViewerPart)
    ensures
        parts_of(args, features).contains(part) <==> wants(args, features, part),
        forall|i: int, j: int|
            0 <= i < j < parts_of(args, features).len() ==> rank_of(
                #[trigger] parts_of(args, features)[i],
            ) < rank_of(#[trigger] parts_of(args, features)[j]),
{
    lemma_wanted_parts(args, features, part);
    lemma_parts_in_turn(args, features);
    assert(ordered_below(parts_of(args, features), 9));
    reveal(ordered_below);
}

/// The same of the parts one after the other.
proof fn lemma_wanted_parts(args: ViewerArgs, features: ViewerFeatures, part: ViewerPart)
    ensures
        parts_in_turn(args, features).contains(part) <==> wants(args, features, part),
        ordered_below(parts_in_turn(args, features), 9),
{
    let none = Seq::<ViewerPart>::empty();
    assert(ordered_below(none, 0)) by {
        reveal(ordered_below);
    }
    let p0 = extended(none, args.press_esc_close, ViewerPart::EscapeCloses);
    let p1 = extended(p0, args.press_s_screenshot, ViewerPart::Screenshots);
    let p2 = extended(p1, args.show_axes, ViewerPart::Axes);
    let p3 = extended(p2, args.show_fps, ViewerPart::FrameRate);
    let p4 = extended(p3, features.page, ViewerPart::LoadingOverlay);
    let p5 = extended(p4, features.material_noise, ViewerPart::NoiseMaterial);
    let p6 = extended(p5, features.morph_particles, ViewerPart::ParticleBehavior);
    let p7 = extended(p6, features.query_select, ViewerPart::SelectionKeys);
    lemma_one_more_part(none, args.press_esc_close, ViewerPart::EscapeCloses, part);
    lemma_one_more_part(p0, args.press_s_screenshot, ViewerPart::Screenshots, part);
    lemma_one_more_part(p1, args.show_axes, ViewerPart::Axes, part);
    lemma_one_more_part(p2, args.show_fps, ViewerPart::FrameRate, part);
    lemma_one_more_part(p3, features.page, ViewerPart::LoadingOverlay, part);
    lemma_one_more_part(p4, features.material_noise, ViewerPart::NoiseMaterial, part);
    lemma_one_more_part(p5, features.morph_particles, ViewerPart::ParticleBehavior, part);
    lemma_one_more_part(p6, features.query_select, ViewerPart::SelectionKeys, part);
    lemma_one_more_part(p7, features.query_sparse, ViewerPart::SparseSelect, part);
}

/// Names tell what is shown apart: a scene, a streamed scene, a cloud, two clouds, or
/// a cloud that changes with time.
pub proof fn names_tell_plans_apart(a: ScenePlan<Seq<char>>, b: ScenePlan<Seq<char>>)
    ensures
        name_of(a) == name_of(b) <==> match (a, b) {
            (ScenePlan::Scene { .. }, ScenePlan::Scene { .. }) => true,
            (ScenePlan::Lod { .. }, ScenePlan::Lod { .. }) => true,
            (
                ScenePlan::Cloud3d { target, .. },
                ScenePlan::Cloud3d { target: other, .. },
            ) => target is Some <==> other is Some,
            (ScenePlan::Cloud4d { .. }, ScenePlan::Cloud4d { .. }) => true,
            _ => false,
        },
{
    reveal_strlit("gaussian_scene");
    reveal_strlit("gaussian_lod_scene");
    reveal_strlit("gaussian_cloud_3d_binary");
    reveal_strlit("gaussian_cloud_3d");
    reveal_strlit("gaussian_cloud_4d");
    assert("gaussian_cloud_3d"@[15] != "gaussian_cloud_4d"@[15]);
    assert("gaussian_cloud_3d"@.len() == 17);
    assert("gaussian_scene"@.len() == 14);
    assert("gaussian_lod_scene"@.len() == 18);
    assert("gaussian_cloud_3d_binary"@.len() == 24);
}

/// Whatever is loaded is announced: the first line ends with where the scene or the
/// cloud is loaded from, and the last with where the second cloud is.
pub proof fn loads_are_announced(plan: ScenePlan<Seq<char>>)
    ensures
        match plan {
            ScenePlan::Scene { uri } => lines_of(plan).len() == 1 && ends_with(
                lines_of(plan)[0],
                uri,
            ),
            ScenePlan::Lod { uri, .. } => lines_of(plan).len() == 1 && ends_with(
                lines_of(plan)[0],
                uri,
            ),
            ScenePlan::Cloud3d { source, target } => {
                &&& source matches CloudSource::Load { uri } ==> lines_of(plan).len() > 0
                    && ends_with(lines_of(plan)[0], uri)
                &&& source is TestModel && target is None ==> lines_of(plan).len() == 0
                &&& target matches Some(uri) ==> lines_of(plan).len() > 0 && ends_with(
                    lines_of(plan).last(),
                    uri,
                )
            },
            ScenePlan::Cloud4d { source } => {
                &&& source matches CloudSource::Load { uri } ==> lines_of(plan).len() > 0
                    && ends_with(lines_of(plan)[0], uri)
                &&& source is TestModel ==> lines_of(plan).len() == 0
            },
        },
{
    match plan {
        ScenePlan::Scene { uri } => {
            lemma_line_ends("loading "@, uri);
        },
        ScenePlan::Lod { uri, .. } => {
            lemma_line_ends("loading streamed SOG scene "@, uri);
        },
        ScenePlan::Cloud3d { source, target } => {
            if let CloudSource::Load { uri } = source {
                lemma_line_ends("loading "@, uri);
            }
            if let Some(uri) = target {
                lemma_line_ends("loading "@, uri);
            }
        },
        ScenePlan::Cloud4d { source } => {
            if let CloudSource::Load { uri } = source {
                lemma_line_ends("loading "@, uri);
            }
        },
    }
}

/// A line ends with its second part.
proof fn lemma_line_ends(what: Seq<char>, uri: Seq<char>)
    ensures
        ends_with(what + uri, uri),
{
    let line = what + uri;
    assert(line.subrange(line.len() - uri.len(), line.len() as int) =~= uri);
}

/// Particles are made wherever there are clouds and particles are asked for, and move
/// the cloud exactly if it is the only one.
pub proof fn particles_move_an_only_cloud(clouds: int, particle_count: int)
    requires
        clouds >= 0,
        particle_count >= 0,
    ensures
        particles_for(clouds, particle_count) is Nothing <==> clouds == 0 || particle_count == 0,
        particles_for(clouds, particle_count) is GenerateAndAttach <==> clouds == 1
            && particle_count > 0,
        particles_for(clouds, particle_count) is Generate <==> clouds > 1 && particle_count > 0,
{
}

/// The camera of a scene is taken over exactly if the scene is there, has one, and
/// there is one camera to hand it to; it is waited for exactly while the scene is
/// not there.
pub proof fn scene_cameras_are_taken_over_once(
    progress: LoadProgress,
    scene_there: bool,
    scene_has_camera: bool,
    one_viewer_camera: bool,
)
    ensures
        ({
            let step = scene_camera_step(
                progress,
                scene_there,
                scene_has_camera,
                one_viewer_camera,
            );
            &&& step is Wait <==> progress is NotLoaded || progress is Loading || progress is Failed
                || !scene_there
            &&& step is TakeOver <==> (progress is Loaded || progress is Unmanaged) && scene_there
                && scene_has_camera && one_viewer_camera
        }),
{
}

/// What goes with a plan follows from it: axes with single clouds and with nothing
/// else, and the arguments' render settings with a scene and with nothing else.
pub proof fn plans_decide_what_goes_with_them(args: ViewerArgs, features: ViewerFeatures)
    ensures
        takes_axes(plan_of_args(args, features)) <==> args.input_scene is None
            && args.input_lod is None,
        replaces_render_settings(args) <==> plan_of_args(args, features) is Scene,
{
}

/// A second cloud that is asked for is never left out in silence: arguments are
/// refused exactly where a single cloud would go without the second one that
/// they name, whatever else they say.
pub proof fn second_clouds_are_loaded_or_refused(args: ViewerArgs, features: ViewerFeatures)
    ensures
        can_serve(args, features) <==> (args.input_cloud_target is Some
            ==> features.morph_interpolate),
        can_serve(args, features) ==> (plan_of_args(args, features) matches ScenePlan::Cloud3d {
            target,
            ..
        } ==> (target is Some <==> args.input_cloud_target is Some)),
{
}

/// Noise waits for a cloud while it is loading, and for nothing else.
pub proof fn noise_waits_for_loading(progress: LoadProgress)
    ensures
        !gets_noise(progress) <==> progress == LoadProgress::Loading,
{
}

/// Whatever is made is announced with its number: particles, and random splats.
pub proof fn numbers_are_announced(count: usize, seed: Option<u64>, particle_count: nat)
    ensures
        starts_with(particle_text(particle_count), "generating "@ + decimal(particle_count) + " "@),
        ({
            let lines = source_lines(CloudSource::Random { count, seed });
            lines.len() == 1 && starts_with(
                lines[0],
                "generating "@ + decimal(count as nat) + " "@,
            )
        }),
{
    reveal_strlit(" ");
    reveal_strlit(" particle behaviors");
    reveal_strlit(" gaussians");
    let head = "generating "@ + decimal(particle_count) + " "@;
    assert(particle_text(particle_count).subrange(0, head.len() as int) =~= head);
    let start = "generating "@ + decimal(count as nat) + " "@;
    let line = source_lines(CloudSource::Random { count, seed })[0];
    assert(line.subrange(0, start.len() as int) =~= start);
}

} // verus!
