//! WebP textures, decoded by the `image` crate.

use vstd::prelude::*;
use vstd::string::*;

use crate::error::{ReadError, ReadProblem};
use crate::io::alpha_frame::{
    alpha_file, alpha_is_packed, alpha_overruns, build_alpha, build_picture, bytes_of, chunk_of,
    find_overrun, frame_overruns, le24, le32, part_of, picture_file, room_of,
    still_files_do_not_overrun, LOSSLESS_SIGNATURE, TAG_ANMF, TAG_VP8, TAG_VP8L,
};

verus! {

/// What the `image` crate makes of the bytes of a WebP file: the RGBA bytes of
/// the picture, row by row, with its width, or the words of its refusal.
pub uninterp spec fn webp_image(bytes: Seq<u8>) -> Result<(Seq<u8>, nat), Seq<char>>;

/// The view of a decoder's outcome.
pub open spec fn image_view(r: Result<(Vec<u8>, usize), String>) -> Result<
    (Seq<u8>, nat),
    Seq<char>,
> {
    match r {
        Ok((rgba, width)) => Ok((rgba@, width as nat)),
        Err(reason) => Err(reason@),
    }
}

/// Calls `image::load_from_memory_with_format` for `ImageFormat::WebP`, turns
/// the picture into RGBA8 with `to_rgba8`, and hands out its bytes and width.
/// Claimed: the outcome, a refusal's words included, is a function of the bytes
/// alone. The decoder, `image-webp`, fills the pixels of an alpha frame by the size
/// of the picture in it, and panics where the two differ: such bytes are left out.
/// Prefix codes that are not full are refused before they are used
/// (`code_lengths_to_codes` in its `huffman.rs`).
#[verifier::external_body]
fn load_webp(bytes: &[u8]) -> (r: Result<(Vec<u8>, usize), String>)
    requires
        !alpha_overruns(bytes@),
    ensures
        image_view(r) == webp_image(bytes@),
{
    let picture = image::load_from_memory_with_format(bytes, image::ImageFormat::WebP).map_err(
        |e| e.to_string(),
    )?;
    let rgba = picture.to_rgba8();
    let width = rgba.width() as usize;
    Ok((rgba.into_raw(), width))
}

/// What is said of a file whose alpha frame does not fit.
pub open spec fn overrun_reason() -> Seq<char> {
    "alpha frame and picture differ in size"@
}

/// Why a file whose alpha frame at `at` does not fit is refused: where its alpha
/// channel or its picture is refused by itself, in the words of that refusal.
#[verifier::opaque]
pub open spec fn refusal(bytes: Seq<u8>, at: int) -> Seq<char> {
    if alpha_is_packed(bytes, at) && webp_image(alpha_file(bytes, at)) is Err {
        webp_image(alpha_file(bytes, at))->Err_0
    } else if webp_image(picture_file(bytes, at)) is Err {
        webp_image(picture_file(bytes, at))->Err_0
    } else {
        overrun_reason()
    }
}

/// The texture `name` out of the bytes of its file.
pub open spec fn decoded(name: Seq<char>, bytes: Seq<u8>) -> Result<
    (Seq<u8>, nat),
    ReadProblem<Seq<char>>,
> {
    if alpha_overruns(bytes) {
        let at = chunk_of(bytes, TAG_ANMF as int)->0;
        Err(ReadProblem::TextureDecode { name, reason: refusal(bytes, at) })
    } else {
        texture_outcome(name, webp_image(bytes))
    }
}

/// The texture `name`, given what the decoder made of its bytes.
pub open spec fn texture_outcome(
    name: Seq<char>,
    image: Result<(Seq<u8>, nat), Seq<char>>,
) -> Result<(Seq<u8>, nat), ReadProblem<Seq<char>>> {
    match image {
        Ok(picture) => Ok(picture),
        Err(reason) => Err(ReadProblem::TextureDecode { name, reason }),
    }
}

/// The view of a decoded texture.
pub open spec fn picture_view(r: Result<(Vec<u8>, usize), ReadError>) -> Result<
    (Seq<u8>, nat),
    ReadProblem<Seq<char>>,
> {
    match r {
        Ok((rgba, width)) => Ok((rgba@, width as nat)),
        Err(e) => Err(e@),
    }
}

/// Names the texture in a refusal of the decoder.
pub fn name_texture(name: &str, image: Result<(Vec<u8>, usize), String>) -> (r: Result<
    (Vec<u8>, usize),
    ReadError,
>)
    ensures
        picture_view(r) == texture_outcome(name@, image_view(image)),
{
    match image {
        Ok(picture) => Ok(picture),
        Err(reason) => Err(ReadProblem::TextureDecode { name: name.to_owned(), reason }),
    }
}

/// Says why a file whose alpha frame at `at` does not fit is refused.
fn refuse(bytes: &[u8], at: usize) -> (r: String)
    requires
        frame_overruns(bytes@, at as int),
    ensures
        r@ == refusal(bytes@, at as int),
{
    proof {
        reveal(refusal);
        lemma_parts(bytes@, at as int);
    }
    if let Some(alpha) = build_alpha(bytes, at) {
        if let Err(reason) = load_webp(&alpha) {
            return reason;
        }
    }
    let picture = build_picture(bytes, at);
    match load_webp(&picture) {
        Err(reason) => reason,
        Ok(_) => "alpha frame and picture differ in size".to_owned(),
    }
}

/// The parts of a frame can be decoded by themselves.
proof fn lemma_parts(bytes: Seq<u8>, at: int)
    ensures
        !alpha_overruns(alpha_file(bytes, at)),
        !alpha_overruns(picture_file(bytes, at)),
{
    let size = le32(bytes, at + 28);
    still_files_do_not_overrun(
        TAG_VP8L as int,
        seq![LOSSLESS_SIGNATURE] + bytes_of(
            le24(bytes, at + 14) + 0x4000 * le24(bytes, at + 17),
        ) + part_of(bytes, at + 33, size - 1),
    );
    still_files_do_not_overrun(TAG_VP8 as int, part_of(bytes, at + 40 + room_of(size), size));
}

/// Decodes the texture `name` from the bytes of its WebP file into RGBA8 bytes
/// and a width. An animated file whose first alpha frame does not fit is refused.
pub fn decode_webp(name: &str, bytes: &[u8]) -> (r: Result<(Vec<u8>, usize), ReadError>)
    ensures
        picture_view(r) == decoded(name@, bytes@),
{
    if let Some(at) = find_overrun(bytes) {
        return Err(
            ReadProblem::TextureDecode { name: name.to_owned(), reason: refuse(bytes, at) },
        );
    }
    name_texture(name, load_webp(bytes))
}

/// A texture is the picture that the decoder makes of its bytes, unchanged; whatever
/// is refused is refused under the texture's name, and in the decoder's words where
/// the decoder refuses the whole file.
pub proof fn textures_are_their_pictures(
    name: Seq<char>,
    bytes: Seq<u8>,
    picture: (Seq<u8>, nat),
    reason: Seq<char>,
)
    ensures
        !alpha_overruns(bytes) && webp_image(bytes) == Ok::<(Seq<u8>, nat), Seq<char>>(picture)
            ==> decoded(name, bytes) == Ok::<(Seq<u8>, nat), ReadProblem<Seq<char>>>(picture),
        !alpha_overruns(bytes) && webp_image(bytes) == Err::<(Seq<u8>, nat), Seq<char>>(reason)
            ==> decoded(name, bytes) == Err::<(Seq<u8>, nat), ReadProblem<Seq<char>>>(
            ReadProblem::TextureDecode { name, reason },
        ),
        alpha_overruns(bytes) ==> (decoded(name, bytes) matches Err(
            ReadProblem::TextureDecode { name: named, .. },
        ) && named == name),
{
}

} // verus!
