//! Exporting the scene that is shown.

use vstd::prelude::*;
use vstd::string::*;

use crate::stream::allocator::count_below;
use crate::text::{
    decimal, decimals_tell_numbers_apart, ends_with, push_decimal, push_index, starts_with,
};
use crate::viewer::input::text_view;

verus! {

/// A cloud that may be exported: whether its splats are there, and its name.
#[derive(Clone, Debug)]
pub struct ExportCandidate {
    pub loaded: bool,
    pub name: Option<String>,
}

/// The name of an exported cloud: its own, or one made of its place.
pub open spec fn cloud_export_name(name: Option<Seq<char>>, index: nat) -> Seq<char> {
    match name {
        Some(name) => name,
        None => "gaussian_cloud_"@ + decimal(index),
    }
}

/// The clouds that are exported: those whose splats are there, in order, each
/// with its place among all and its name.
pub open spec fn exported(candidates: Seq<ExportCandidate>) -> Seq<(int, Seq<char>)>
    decreases candidates.len(),
{
    if candidates.len() == 0 {
        Seq::empty()
    } else {
        let before = exported(candidates.drop_last());
        let index = candidates.len() - 1;
        if candidates.last().loaded {
            before.push(
                (index, cloud_export_name(text_view(candidates.last().name), index as nat)),
            )
        } else {
            before
        }
    }
}

/// The views of exported clouds.
pub open spec fn export_views(list: Seq<(usize, String)>) -> Seq<(int, Seq<char>)> {
    list.map_values(|item: (usize, String)| (item.0 as int, item.1@))
}

/// Lists the clouds that are exported; `None` if there are none.
pub fn plan_export(candidates: &Vec<ExportCandidate>) -> (r: Option<Vec<(usize, String)>>)
    ensures
        r is None <==> exported(candidates@).len() == 0,
        r matches Some(list) ==> export_views(list@) == exported(candidates@),
{
    let mut list: Vec<(usize, String)> = Vec::new();
    let mut index: usize = 0;
    assert(candidates@.subrange(0, 0) =~= Seq::empty());
    assert(export_views(list@) =~= Seq::empty());
    while index < candidates.len()
        invariant
            index <= candidates@.len(),
            export_views(list@) == exported(candidates@.subrange(0, index as int)),
        decreases candidates@.len() - index,
    {
        let ghost longer = candidates@.subrange(0, index + 1);
        assert(longer.drop_last() =~= candidates@.subrange(0, index as int));
        assert(longer.last() == candidates@[index as int]);
        if candidates[index].loaded {
            let name = match &candidates[index].name {
                Some(name) => name.as_str().to_owned(),
                None => {
                    let mut name = "gaussian_cloud_".to_owned();
                    push_index(&mut name, index);
                    name
                },
            };
            let ghost before = list@;
            list.push((index, name));
            assert(export_views(list@) =~= export_views(before).push((index as int, name@)));
        }
        index = index + 1;
    }
    assert(candidates@.subrange(0, index as int) =~= candidates@);
    assert(export_views(list@).len() == list@.len());
    if list.len() == 0 {
        None
    } else {
        Some(list)
    }
}

/// The name of the exported camera.
pub open spec fn camera_name(name: Option<Seq<char>>) -> Seq<char> {
    match name {
        Some(name) => name,
        None => "viewer_camera"@,
    }
}

/// The name of the exported camera: its own, or a default.
pub fn camera_export_name(name: Option<&str>) -> (r: String)
    ensures
        r@ == camera_name(
            match name {
                Some(name) => Some(name@),
                None => None,
            },
        ),
{
    match name {
        Some(name) => name.to_owned(),
        None => "viewer_camera".to_owned(),
    }
}

/// The file of an export.
pub open spec fn export_file(frame: nat) -> Seq<char> {
    "gaussian_scene_"@ + decimal(frame) + ".glb"@
}

/// The file of an export in a frame.
pub fn export_file_name(frame: u32) -> (r: String)
    ensures
        r@ == export_file(frame as nat),
{
    let mut name = "gaussian_scene_".to_owned();
    push_decimal(&mut name, frame as u64);
    name.append(".glb");
    assert(name@ =~= export_file(frame as nat));
    name
}

/// How an export ended.
#[derive(Debug)]
pub enum ExportOutcome<'a> {
    /// there was no cloud
    Nothing,
    /// the directory could not be made
    NoDirectory { dir: &'a str, reason: &'a str },
    Saved { path: &'a str },
    Failed { path: &'a str, reason: &'a str },
    /// there are no files to write to
    Unsupported,
}

/// The wording of how an export ended.
pub open spec fn outcome_text(outcome: ExportOutcome) -> Seq<char> {
    match outcome {
        ExportOutcome::Nothing => "no gaussian clouds available to export"@,
        ExportOutcome::NoDirectory { dir, reason } => "failed to create export directory '"@ + dir@
            + "': "@ + reason@,
        ExportOutcome::Saved { path } => "saved gaussian scene to "@ + path@,
        ExportOutcome::Failed { path, reason } => "failed to save gaussian scene '"@ + path@ + "': "@
            + reason@,
        ExportOutcome::Unsupported => "GLB scene export is not supported on wasm32"@,
    }
}

/// Says how an export ended.
pub fn export_line(outcome: &ExportOutcome) -> (r: String)
    ensures
        r@ == outcome_text(*outcome),
{
    let mut line = String::new();
    match outcome {
        ExportOutcome::Nothing => {
            line.append("no gaussian clouds available to export");
        },
        ExportOutcome::NoDirectory { dir, reason } => {
            line.append("failed to create export directory '");
            line.append(*dir);
            line.append("': ");
            line.append(*reason);
        },
        ExportOutcome::Saved { path } => {
            line.append("saved gaussian scene to ");
            line.append(*path);
        },
        ExportOutcome::Failed { path, reason } => {
            line.append("failed to save gaussian scene '");
            line.append(*path);
            line.append("': ");
            line.append(*reason);
        },
        ExportOutcome::Unsupported => {
            line.append("GLB scene export is not supported on wasm32");
        },
    }
    assert(line@ =~= outcome_text(*outcome));
    line
}

/// Every cloud whose splats are there is exported, once and in order: it stands
/// behind as many as come before it, with its place among all clouds, under its own
/// name or one that ends in its place. No other cloud is exported.
pub proof fn loaded_clouds_are_exported(candidates: Seq<ExportCandidate>, k: int)
    requires
        0 <= k < candidates.len(),
    ensures
        exported(candidates).len() == count_below(
            |j: int| candidates[j].loaded,
            candidates.len(),
        ),
        candidates[k].loaded ==> {
            let at = count_below(|j: int| candidates[j].loaded, k as nat) as int;
            &&& at < exported(candidates).len()
            &&& exported(candidates)[at].0 == k
            &&& match candidates[k].name {
                Some(name) => exported(candidates)[at].1 == name@,
                None => exported(candidates)[at].1 == "gaussian_cloud_"@ + decimal(k as nat),
            }
        },
{
    lemma_exported(candidates, candidates.len(), k);
    assert(candidates.subrange(0, candidates.len() as int) =~= candidates);
}

/// The same of the first `n` clouds.
proof fn lemma_exported(candidates: Seq<ExportCandidate>, n: nat, k: int)
    requires
        n <= candidates.len(),
        0 <= k,
    ensures
        exported(candidates.subrange(0, n as int)).len() == count_below(
            |j: int| candidates[j].loaded,
            n,
        ),
        k < n && candidates[k].loaded ==> {
            let list = exported(candidates.subrange(0, n as int));
            let at = count_below(|j: int| candidates[j].loaded, k as nat) as int;
            at < list.len() && list[at] == (
                k,
                cloud_export_name(text_view(candidates[k].name), k as nat),
            )
        },
    decreases n,
{
    if n > 0 {
        let part = candidates.subrange(0, n as int);
        assert(part.drop_last() =~= candidates.subrange(0, n - 1));
        assert(part.last() == candidates[n - 1]);
        lemma_exported(candidates, (n - 1) as nat, k);
    }
}

/// Exports are named by their frame, so those of different frames go to different
/// files; and clouds without a name in
/// different places are told apart.
pub proof fn exports_keep_apart(frame: nat, other: nat)
    ensures
        starts_with(export_file(frame), "gaussian_scene_"@ + decimal(frame) + "."@),
        export_file(frame) == export_file(other) ==> frame == other,
        cloud_export_name(None, frame) == cloud_export_name(None, other) ==> frame == other,
{
    reveal_strlit("gaussian_scene_");
    reveal_strlit("gaussian_cloud_");
    reveal_strlit(".glb");
    let a = export_file(frame);
    let b = export_file(other);
    assert(a.subrange(15, a.len() - 4) =~= decimal(frame));
    assert(b.subrange(15, b.len() - 4) =~= decimal(other));
    reveal_strlit(".");
    let head = "gaussian_scene_"@ + decimal(frame) + "."@;
    assert(a.subrange(0, head.len() as int) =~= head);
    let c = cloud_export_name(None, frame);
    let d = cloud_export_name(None, other);
    assert(c.subrange(15, c.len() as int) =~= decimal(frame));
    assert(d.subrange(15, d.len() as int) =~= decimal(other));
    if a == b || c == d {
        decimals_tell_numbers_apart(frame, other);
    }
}

/// What is said of an export tells where it went, or where it failed and why.
pub proof fn export_lines_tell_what_happened(outcome: ExportOutcome)
    ensures
        match outcome {
            ExportOutcome::NoDirectory { dir, reason } => starts_with(
                outcome_text(outcome),
                "failed to create export directory '"@ + dir@,
            ) && ends_with(outcome_text(outcome), reason@),
            ExportOutcome::Saved { path } => ends_with(outcome_text(outcome), path@),
            ExportOutcome::Failed { path, reason } => starts_with(
                outcome_text(outcome),
                "failed to save gaussian scene '"@ + path@,
            ) && ends_with(outcome_text(outcome), reason@),
            _ => true,
        },
{
    let text = outcome_text(outcome);
    match outcome {
        ExportOutcome::NoDirectory { dir, reason } => {
            let head = "failed to create export directory '"@ + dir@;
            assert(text.subrange(0, head.len() as int) =~= head);
            assert(text.subrange(text.len() - reason@.len(), text.len() as int) =~= reason@);
        },
        ExportOutcome::Saved { path } => {
            assert(text.subrange(text.len() - path@.len(), text.len() as int) =~= path@);
        },
        ExportOutcome::Failed { path, reason } => {
            let head = "failed to save gaussian scene '"@ + path@;
            assert(text.subrange(0, head.len() as int) =~= head);
            assert(text.subrange(text.len() - reason@.len(), text.len() as int) =~= reason@);
        },
        _ => {},
    }
}

/// A camera with a name keeps it.
pub proof fn cameras_keep_their_names(name: Seq<char>)
    ensures
        camera_name(Some(name)) == name,
{
}

} // verus!
