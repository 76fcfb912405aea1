//! What can go wrong while reading a scene, and how it is worded.

use vstd::prelude::*;
use vstd::string::*;

use crate::text::{decimal, ends_with, push_decimal, push_index, starts_with};

verus! {

/// A reading error over texts of type `T`.
#[derive(Clone, Debug)]
pub enum ReadProblem<T> {
    /// a unit's `meta.json` is no valid description of a unit
    MetaParse { reason: T },
    /// a unit's `meta.json` has a version other than 2
    MetaVersion { version: u32 },
    /// the positions need a texture of low bytes and one of high bytes
    MeansFiles,
    /// a texture is no WebP image
    TextureDecode { name: T, reason: T },
    /// a texture has fewer texels than the unit has splats
    TextureTooSmall { name: T },
    /// the palette labels have fewer texels than the unit has splats
    LabelsTooSmall,
    /// the palette texture is not 64 entries wide
    CentroidWidth { width: usize, expected: usize, bands: usize },
    /// a row range ends after the last splat of its unit
    RangeOutOfBounds { offset: usize, end: usize, count: usize },
    /// a bundle is no ZIP archive
    BundleOpen { reason: T },
    /// a bundle has no entry for a file
    BundleMissing { name: T },
    /// an entry of a bundle cannot be opened
    BundleEntry { path: T, reason: T },
    /// `lod-meta.json` is no valid description of a scene
    LodMetaParse { reason: T },
    /// `lod-meta.json` has a version other than 1
    LodMetaVersion { version: u32 },
    /// a texture was not among the files that were read
    MissingTexture { name: T },
    /// reading failed outside the formats; `invalid_data` says whether for the
    /// sake of the data read
    Io { reason: T, invalid_data: bool },
}

/// A reading error.
pub type ReadError = ReadProblem<String>;

impl View for ReadProblem<String> {
    type V = ReadProblem<Seq<char>>;

    open spec fn view(&self) -> ReadProblem<Seq<char>> {
        match self {
            ReadProblem::MetaParse { reason } => ReadProblem::MetaParse { reason: reason@ },
            ReadProblem::MetaVersion { version } => ReadProblem::MetaVersion { version: *version },
            ReadProblem::MeansFiles => ReadProblem::MeansFiles,
            ReadProblem::TextureDecode { name, reason } => ReadProblem::TextureDecode {
                name: name@,
                reason: reason@,
            },
            ReadProblem::TextureTooSmall { name } => ReadProblem::TextureTooSmall { name: name@ },
            ReadProblem::LabelsTooSmall => ReadProblem::LabelsTooSmall,
            ReadProblem::CentroidWidth { width, expected, bands } => ReadProblem::CentroidWidth {
                width: *width,
                expected: *expected,
                bands: *bands,
            },
            ReadProblem::RangeOutOfBounds { offset, end, count } => ReadProblem::RangeOutOfBounds {
                offset: *offset,
                end: *end,
                count: *count,
            },
            ReadProblem::BundleOpen { reason } => ReadProblem::BundleOpen { reason: reason@ },
            ReadProblem::BundleMissing { name } => ReadProblem::BundleMissing { name: name@ },
            ReadProblem::BundleEntry { path, reason } => ReadProblem::BundleEntry {
                path: path@,
                reason: reason@,
            },
            ReadProblem::LodMetaParse { reason } => ReadProblem::LodMetaParse { reason: reason@ },
            ReadProblem::LodMetaVersion { version } => ReadProblem::LodMetaVersion {
                version: *version,
            },
            ReadProblem::MissingTexture { name } => ReadProblem::MissingTexture { name: name@ },
            ReadProblem::Io { reason, invalid_data } => ReadProblem::Io {
                reason: reason@,
                invalid_data: *invalid_data,
            },
        }
    }
}

/// The wording of an error.
pub open spec fn wording(problem: ReadProblem<Seq<char>>) -> Seq<char> {
    match problem {
        ReadProblem::MetaParse { reason } => "failed to parse SOG meta.json: "@ + reason,
        ReadProblem::MetaVersion { version } => "unsupported SOG meta version: "@ + decimal(
            version as nat,
        ) + " (only v2 supported)"@,
        ReadProblem::MeansFiles => "SOG means requires two files (low + high bytes)"@,
        ReadProblem::TextureDecode { name, reason } => "failed to decode "@ + name + ": "@ + reason,
        ReadProblem::TextureTooSmall { name } => "SOG texture "@ + name + " too small for count"@,
        ReadProblem::LabelsTooSmall => "SOG shN labels texture too small for count"@,
        ReadProblem::CentroidWidth { width, expected, bands } => "SOG shN centroids width "@
            + decimal(width as nat) + " does not match expected "@ + decimal(expected as nat)
            + " for "@ + decimal(bands as nat) + "-band palette"@,
        ReadProblem::RangeOutOfBounds { offset, end, count } => "SOG range "@ + decimal(
            offset as nat,
        ) + ".."@ + decimal(end as nat) + " out of bounds (count "@ + decimal(count as nat) + ")"@,
        ReadProblem::BundleOpen { reason } => "failed to open .sog bundle: "@ + reason,
        ReadProblem::BundleMissing { name } => name + " not found in .sog bundle"@,
        ReadProblem::BundleEntry { path, reason } => "failed to read "@ + path
            + " from .sog bundle: "@ + reason,
        ReadProblem::LodMetaParse { reason } => "failed to parse lod-meta.json: "@ + reason,
        ReadProblem::LodMetaVersion { version } => "unsupported lod-meta version: "@ + decimal(
            version as nat,
        ),
        ReadProblem::MissingTexture { name } => "missing texture "@ + name,
        ReadProblem::Io { reason, .. } => reason,
    }
}

/// Whether an error lies in the data itself, not in how it was reached.
pub open spec fn blames_data(problem: ReadProblem<Seq<char>>) -> bool {
    match problem {
        ReadProblem::Io { invalid_data, .. } => invalid_data,
        ReadProblem::MissingTexture { .. } => false,
        _ => true,
    }
}

impl ReadProblem<String> {
    /// Whether the error lies in the data itself, not in how it was reached.
    pub open spec fn spec_invalid_data(self) -> bool {
        blames_data(self@)
    }

    /// Whether the error lies in the data itself, not in how it was reached.
    pub fn is_invalid_data(&self) -> (r: bool)
        ensures
            r == self.spec_invalid_data(),
    {
        match self {
            ReadProblem::Io { invalid_data, .. } => *invalid_data,
            ReadProblem::MissingTexture { .. } => false,
            _ => true,
        }
    }

    /// The error in words.
    pub fn message(&self) -> (r: String)
        ensures
            r@ == wording(self@),
    {
        let mut out = String::new();
        match self {
            ReadProblem::MetaParse { reason } => {
                out.append("failed to parse SOG meta.json: ");
                out.append(reason.as_str());
            },
            ReadProblem::MetaVersion { version } => {
                out.append("unsupported SOG meta version: ");
                push_decimal(&mut out, *version as u64);
                out.append(" (only v2 supported)");
            },
            ReadProblem::MeansFiles => {
                out.append("SOG means requires two files (low + high bytes)");
            },
            ReadProblem::TextureDecode { name, reason } => {
                out.append("failed to decode ");
                out.append(name.as_str());
                out.append(": ");
                out.append(reason.as_str());
            },
            ReadProblem::TextureTooSmall { name } => {
                out.append("SOG texture ");
                out.append(name.as_str());
                out.append(" too small for count");
            },
            ReadProblem::LabelsTooSmall => {
                out.append("SOG shN labels texture too small for count");
            },
            ReadProblem::CentroidWidth { width, expected, bands } => {
                out.append("SOG shN centroids width ");
                push_index(&mut out, *width);
                out.append(" does not match expected ");
                push_index(&mut out, *expected);
                out.append(" for ");
                push_index(&mut out, *bands);
                out.append("-band palette");
            },
            ReadProblem::RangeOutOfBounds { offset, end, count } => {
                out.append("SOG range ");
                push_index(&mut out, *offset);
                out.append("..");
                push_index(&mut out, *end);
                out.append(" out of bounds (count ");
                push_index(&mut out, *count);
                out.append(")");
            },
            ReadProblem::BundleOpen { reason } => {
                out.append("failed to open .sog bundle: ");
                out.append(reason.as_str());
            },
            ReadProblem::BundleMissing { name } => {
                out.append(name.as_str());
                out.append(" not found in .sog bundle");
            },
            ReadProblem::BundleEntry { path, reason } => {
                out.append("failed to read ");
                out.append(path.as_str());
                out.append(" from .sog bundle: ");
                out.append(reason.as_str());
            },
            ReadProblem::LodMetaParse { reason } => {
                out.append("failed to parse lod-meta.json: ");
                out.append(reason.as_str());
            },
            ReadProblem::LodMetaVersion { version } => {
                out.append("unsupported lod-meta version: ");
                push_decimal(&mut out, *version as u64);
            },
            ReadProblem::MissingTexture { name } => {
                out.append("missing texture ");
                out.append(name.as_str());
            },
            ReadProblem::Io { reason, .. } => {
                out.append(reason.as_str());
            },
        }
        assert(out@ =~= wording(self@));
        out
    }
}

/// An error lies in the data unless a texture was merely not among the files, or
/// reading failed otherwise.
pub proof fn only_missing_files_are_not_the_data(problem: ReadProblem<Seq<char>>)
    ensures
        blames_data(problem) <==> !(problem is MissingTexture) && (problem matches ReadProblem::Io {
            invalid_data,
            ..
        } ==> invalid_data),
{
}

/// An error keeps what it is made of: kind, names, reasons and numbers.
pub proof fn problems_keep_their_parts(problem: ReadError)
    ensures
        match problem {
            ReadProblem::MetaParse { reason } => problem@ == (ReadProblem::MetaParse {
                reason: reason@,
            }),
            ReadProblem::MetaVersion { version } => problem@ == (ReadProblem::<
                Seq<char>,
            >::MetaVersion { version }),
            ReadProblem::MeansFiles => problem@ is MeansFiles,
            ReadProblem::TextureDecode { name, reason } => problem@ == (
            ReadProblem::TextureDecode { name: name@, reason: reason@ }),
            ReadProblem::TextureTooSmall { name } => problem@ == (ReadProblem::TextureTooSmall {
                name: name@,
            }),
            ReadProblem::LabelsTooSmall => problem@ is LabelsTooSmall,
            ReadProblem::CentroidWidth { width, expected, bands } => problem@ == (ReadProblem::<
                Seq<char>,
            >::CentroidWidth { width, expected, bands }),
            ReadProblem::RangeOutOfBounds { offset, end, count } => problem@ == (ReadProblem::<
                Seq<char>,
            >::RangeOutOfBounds { offset, end, count }),
            ReadProblem::BundleOpen { reason } => problem@ == (ReadProblem::BundleOpen {
                reason: reason@,
            }),
            ReadProblem::BundleMissing { name } => problem@ == (ReadProblem::BundleMissing {
                name: name@,
            }),
            ReadProblem::BundleEntry { path, reason } => problem@ == (ReadProblem::BundleEntry {
                path: path@,
                reason: reason@,
            }),
            ReadProblem::LodMetaParse { reason } => problem@ == (ReadProblem::LodMetaParse {
                reason: reason@,
            }),
            ReadProblem::LodMetaVersion { version } => problem@ == (ReadProblem::<
                Seq<char>,
            >::LodMetaVersion { version }),
            ReadProblem::MissingTexture { name } => problem@ == (ReadProblem::MissingTexture {
                name: name@,
            }),
            ReadProblem::Io { reason, invalid_data } => problem@ == (ReadProblem::Io {
                reason: reason@,
                invalid_data,
            }),
        },
{
}

/// Every error tells what it is about: the name of the file, the reason or the
/// numbers that it has, each where its sentence has it.
pub proof fn messages_tell_what_went_wrong(problem: ReadProblem<Seq<char>>)
    ensures
        match problem {
            ReadProblem::MetaParse { reason } => ends_with(wording(problem), reason),
            ReadProblem::MetaVersion { version } => starts_with(
                wording(problem),
                "unsupported SOG meta version: "@ + decimal(version as nat) + " "@,
            ),
            ReadProblem::TextureDecode { name, reason } => starts_with(
                wording(problem),
                "failed to decode "@ + name,
            ) && ends_with(wording(problem), reason),
            ReadProblem::TextureTooSmall { name } => starts_with(
                wording(problem),
                "SOG texture "@ + name,
            ),
            ReadProblem::CentroidWidth { width, expected, bands } => starts_with(
                wording(problem),
                "SOG shN centroids width "@ + decimal(width as nat) + " does not match expected "@
                    + decimal(expected as nat),
            ) && ends_with(wording(problem), " for "@ + decimal(bands as nat) + "-band palette"@),
            ReadProblem::RangeOutOfBounds { offset, end, count } => starts_with(
                wording(problem),
                "SOG range "@ + decimal(offset as nat) + ".."@ + decimal(end as nat),
            ) && ends_with(wording(problem), "(count "@ + decimal(count as nat) + ")"@),
            ReadProblem::BundleOpen { reason } => ends_with(wording(problem), reason),
            ReadProblem::BundleMissing { name } => starts_with(wording(problem), name),
            ReadProblem::BundleEntry { path, reason } => starts_with(
                wording(problem),
                "failed to read "@ + path,
            ) && ends_with(wording(problem), reason),
            ReadProblem::LodMetaParse { reason } => ends_with(wording(problem), reason),
            ReadProblem::LodMetaVersion { version } => ends_with(
                wording(problem),
                " "@ + decimal(version as nat),
            ),
            ReadProblem::MissingTexture { name } => ends_with(wording(problem), name),
            ReadProblem::Io { reason, .. } => wording(problem) == reason,
            _ => true,
        },
{
    let text = wording(problem);
    match problem {
        ReadProblem::MetaParse { reason } => {
            lemma_tail("failed to parse SOG meta.json: "@, reason);
        },
        ReadProblem::MetaVersion { version } => {
            reveal_strlit(" ");
            reveal_strlit(" (only v2 supported)");
            let head = "unsupported SOG meta version: "@ + decimal(version as nat) + " "@;
            assert(text.subrange(0, head.len() as int) =~= head);
        },
        ReadProblem::TextureDecode { name, reason } => {
            let head = "failed to decode "@ + name;
            assert(text.subrange(0, head.len() as int) =~= head);
            lemma_tail(head + ": "@, reason);
        },
        ReadProblem::TextureTooSmall { name } => {
            let head = "SOG texture "@ + name;
            assert(text.subrange(0, head.len() as int) =~= head);
        },
        ReadProblem::CentroidWidth { width, expected, bands } => {
            let head = "SOG shN centroids width "@ + decimal(width as nat)
                + " does not match expected "@ + decimal(expected as nat);
            let tail = " for "@ + decimal(bands as nat) + "-band palette"@;
            assert(text =~= head + tail);
            assert(text.subrange(0, head.len() as int) =~= head);
            lemma_tail(head, tail);
        },
        ReadProblem::RangeOutOfBounds { offset, end, count } => {
            reveal_strlit(" out of bounds (count ");
            reveal_strlit("(count ");
            let head = "SOG range "@ + decimal(offset as nat) + ".."@ + decimal(end as nat);
            let tail = "(count "@ + decimal(count as nat) + ")"@;
            assert(text.subrange(0, head.len() as int) =~= head);
            assert(text.subrange(text.len() - tail.len(), text.len() as int) =~= tail);
        },
        ReadProblem::BundleOpen { reason } => {
            lemma_tail("failed to open .sog bundle: "@, reason);
        },
        ReadProblem::BundleMissing { name } => {
            assert(text.subrange(0, name.len() as int) =~= name);
        },
        ReadProblem::BundleEntry { path, reason } => {
            let head = "failed to read "@ + path;
            assert(text.subrange(0, head.len() as int) =~= head);
            lemma_tail(head + " from .sog bundle: "@, reason);
        },
        ReadProblem::LodMetaParse { reason } => {
            lemma_tail("failed to parse lod-meta.json: "@, reason);
        },
        ReadProblem::LodMetaVersion { version } => {
            reveal_strlit(" ");
            reveal_strlit("unsupported lod-meta version: ");
            let tail = " "@ + decimal(version as nat);
            assert(text.subrange(text.len() - tail.len(), text.len() as int) =~= tail);
        },
        ReadProblem::MissingTexture { name } => {
            lemma_tail("missing texture "@, name);
        },
        _ => {},
    }
}

/// A sentence ends with its last part.
proof fn lemma_tail(front: Seq<char>, tail: Seq<char>)
    ensures
        ends_with(front + tail, tail),
{
    let text = front + tail;
    assert(text.subrange(text.len() - tail.len(), text.len() as int) =~= tail);
}

} // verus!
