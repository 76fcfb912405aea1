//! Alpha frames of animated WebP files. The decoder cuts the pixels of such a frame
//! by the size of the picture in it, which it does not hold against the frame's.

use vstd::prelude::*;

verus! {

/// The tags of chunks, their four bytes read as a number, low byte first.
pub const TAG_RIFF: u32 = 0x4646_4952;

pub const TAG_WEBP: u32 = 0x5042_4557;

pub const TAG_VP8: u32 = 0x2038_5056;

pub const TAG_VP8L: u32 = 0x4c38_5056;

pub const TAG_VP8X: u32 = 0x5838_5056;

pub const TAG_ANIM: u32 = 0x4d49_4e41;

pub const TAG_ANMF: u32 = 0x464d_4e41;

pub const TAG_ALPH: u32 = 0x4850_4c41;

pub const TAG_ICCP: u32 = 0x5043_4349;

pub const TAG_EXIF: u32 = 0x4649_5845;

pub const TAG_XMP: u32 = 0x2050_4d58;

/// The most rows or columns that a frame has.
pub const FRAME_LIMIT: u64 = 16384;

/// The most bytes that a decoded picture has.
pub const PICTURE_LIMIT: u64 = 0x2000_0000;

/// The byte that a lossless picture starts with.
pub const LOSSLESS_SIGNATURE: u8 = 0x2f;

/// The three bytes that a picture's data starts with, behind its tag.
pub const PICTURE_MAGIC: u32 = 0x2a_019d;

/// Two bytes as a number, low byte first.
pub open spec fn le16(bytes: Seq<u8>, at: int) -> int {
    bytes[at] + 256 * bytes[at + 1]
}

/// Three bytes as a number, low byte first.
pub open spec fn le24(bytes: Seq<u8>, at: int) -> int {
    le16(bytes, at) + 65536 * bytes[at + 2]
}

/// Four bytes as a number, low byte first.
pub open spec fn le32(bytes: Seq<u8>, at: int) -> int {
    le16(bytes, at) + 65536 * le16(bytes, at + 2)
}

/// Bytes that the content of a chunk takes up: an odd size is filled up by one,
/// except the largest, which has no successor in four bytes.
pub open spec fn room_of(size: int) -> int {
    if size % 2 == 1 && size < u32::MAX {
        size + 1
    } else {
        size
    }
}

/// Whether a tag is that of some chunk of the format.
pub open spec fn is_tag(tag: int) -> bool {
    ||| tag == TAG_RIFF
    ||| tag == TAG_WEBP
    ||| tag == TAG_VP8
    ||| tag == TAG_VP8L
    ||| tag == TAG_VP8X
    ||| tag == TAG_ANIM
    ||| tag == TAG_ANMF
    ||| tag == TAG_ALPH
    ||| tag == TAG_ICCP
    ||| tag == TAG_EXIF
    ||| tag == TAG_XMP
}

/// Whether a chunk of the format starts at `at` and before `end`.
pub open spec fn is_chunk(bytes: Seq<u8>, at: int, end: int) -> bool {
    0 <= at < end && at + 8 <= bytes.len() && is_tag(le32(bytes, at))
}

/// Where the chunk behind that at `at` starts.
pub open spec fn next_chunk(bytes: Seq<u8>, at: int) -> int {
    at + 8 + room_of(le32(bytes, at + 4))
}

/// Where the first chunk with a tag starts among the chunks that begin at `at` and
/// before `end`. The first tag that is none of the format's ends them.
pub open spec fn first_chunk(bytes: Seq<u8>, at: int, end: int, tag: int) -> Option<int>
    decreases bytes.len() - at,
{
    if !is_chunk(bytes, at, end) {
        None
    } else if le32(bytes, at) == tag {
        Some(at)
    } else if next_chunk(bytes, at) > bytes.len() {
        None
    } else {
        first_chunk(bytes, next_chunk(bytes, at), end, tag)
    }
}

/// Whether every animation frame among these chunks is long enough for the numbers
/// that it starts with.
pub open spec fn frames_are_long(bytes: Seq<u8>, at: int, end: int) -> bool
    decreases bytes.len() - at,
{
    if !is_chunk(bytes, at, end) {
        true
    } else if le32(bytes, at) == TAG_ANMF && (le32(bytes, at + 4) < 24 || at + 24 > bytes.len()) {
        false
    } else if next_chunk(bytes, at) > bytes.len() {
        true
    } else {
        frames_are_long(bytes, next_chunk(bytes, at), end)
    }
}

/// Where the chunks behind the header of an extended file start.
pub open spec fn chunks_start(bytes: Seq<u8>) -> int {
    20 + room_of(le32(bytes, 16))
}

/// Where they end, by the size that the file states.
pub open spec fn chunks_end(bytes: Seq<u8>) -> int {
    if le32(bytes, 4) > 12 {
        chunks_start(bytes) + le32(bytes, 4) - 12
    } else {
        chunks_start(bytes)
    }
}

/// The first chunk of an extended file with a tag.
pub open spec fn chunk_of(bytes: Seq<u8>, tag: int) -> Option<int> {
    first_chunk(bytes, chunks_start(bytes), chunks_end(bytes), tag)
}

/// Whether the bit of value `bit` is set in the flags of an extended file.
pub open spec fn has_flag(bytes: Seq<u8>, bit: int) -> bool {
    (bytes[20] as int / bit) % 2 == 1
}

/// Bytes of a pixel of an extended file.
pub open spec fn pixel_bytes(bytes: Seq<u8>) -> int {
    if has_flag(bytes, 16) {
        4
    } else {
        3
    }
}

/// Whether the bytes start as an extended file with animation, with no reserved bit
/// set and a canvas within the limit.
#[verifier::opaque]
pub open spec fn starts_animation(bytes: Seq<u8>) -> bool {
    &&& bytes.len() >= 30
    &&& le32(bytes, 0) == TAG_RIFF
    &&& le32(bytes, 8) == TAG_WEBP
    &&& le32(bytes, 12) == TAG_VP8X
    &&& bytes[20] < 64
    &&& !has_flag(bytes, 1)
    &&& has_flag(bytes, 2)
    &&& le24(bytes, 21) == 0
    &&& (le24(bytes, 24) + 1) * (le24(bytes, 27) + 1) * pixel_bytes(bytes) <= PICTURE_LIMIT
}

/// Whether an animated file holds the chunks that its flags announce, and its
/// frames can be walked.
#[verifier::opaque]
pub open spec fn holds_chunks(bytes: Seq<u8>) -> bool {
    &&& frames_are_long(bytes, chunks_start(bytes), chunks_end(bytes))
    &&& has_flag(bytes, 32) ==> chunk_of(bytes, TAG_ICCP as int) is Some
    &&& has_flag(bytes, 8) ==> chunk_of(bytes, TAG_EXIF as int) is Some
    &&& has_flag(bytes, 4) ==> chunk_of(bytes, TAG_XMP as int) is Some
    &&& chunk_of(bytes, TAG_ANIM as int) matches Some(at) && at + 14 <= bytes.len() && le32(
        bytes,
        at + 4,
    ) == 6
}

/// Whether the animation frame at `at` lies in the canvas and holds an alpha channel
/// with a picture behind it.
pub open spec fn holds_alpha(bytes: Seq<u8>, at: int) -> bool {
    let size = le32(bytes, at + 28);
    &&& at + 33 <= bytes.len()
    &&& le24(bytes, at + 14) < FRAME_LIMIT
    &&& le24(bytes, at + 17) < FRAME_LIMIT
    &&& 2 * le24(bytes, at + 8) + le24(bytes, at + 14) <= le24(bytes, 24)
    &&& 2 * le24(bytes, at + 11) + le24(bytes, at + 17) <= le24(bytes, 27)
    &&& bytes[at + 23] < 4
    &&& le32(bytes, at + 24) == TAG_ALPH
    &&& room_of(size) + 32 <= le32(bytes, at + 4)
    &&& at + 40 + room_of(size) <= bytes.len()
    &&& size + le32(bytes, at + 36 + room_of(size)) + 32 <= le32(bytes, at + 4)
}

/// Pixels of the animation frame at `at`.
pub open spec fn frame_pixels(bytes: Seq<u8>, at: int) -> int {
    (le24(bytes, at + 14) + 1) * (le24(bytes, at + 17) + 1)
}

/// Whether the alpha channel of the frame at `at` is stored in a known way and, if
/// it is not compressed, whole.
pub open spec fn alpha_is_stored(bytes: Seq<u8>, at: int) -> bool {
    let size = le32(bytes, at + 28);
    &&& size >= 1
    &&& bytes[at + 32] < 32
    &&& bytes[at + 32] % 4 <= 1
    &&& bytes[at + 32] % 4 == 0 ==> {
        &&& frame_pixels(bytes, at) < size
        &&& at + 33 + frame_pixels(bytes, at) <= bytes.len()
    }
}

/// Whether a picture starts at `at` with a whole first partition in the colour space
/// that is defined, within `size` bytes.
pub open spec fn starts_picture(bytes: Seq<u8>, at: int, size: int) -> bool {
    let partition = le24(bytes, at) / 32;
    &&& at + 10 <= bytes.len()
    &&& bytes[at] % 2 == 0
    &&& le24(bytes, at + 3) == PICTURE_MAGIC
    &&& partition >= 2
    &&& 10 + partition <= size
    &&& at + 10 + partition <= bytes.len()
    &&& bytes[at + 10] < 128
}

/// Whether a picture of `width` by `height` does not fill a frame of `pixels`
/// pixels row by row.
pub open spec fn overruns(pixels: int, width: int, height: int) -> bool {
    width == 0 || pixels / width != height
}

/// Whether the animation frame at `at` starts with an alpha channel, and the
/// picture behind it does not fit the frame. Of the picture's data, as many bytes
/// count as the alpha channel has.
#[verifier::opaque]
pub open spec fn frame_overruns(bytes: Seq<u8>, at: int) -> bool {
    let size = le32(bytes, at + 28);
    let picture = at + 40 + room_of(size);
    &&& holds_alpha(bytes, at)
    &&& alpha_is_stored(bytes, at)
    &&& starts_picture(bytes, picture, size)
    &&& overruns(
        frame_pixels(bytes, at),
        le16(bytes, picture + 6) % 0x4000,
        le16(bytes, picture + 8) % 0x4000,
    )
}

/// Whether the bytes are an animated WebP file whose first frame has an alpha
/// channel and a picture that does not fit the frame.
#[verifier::opaque]
pub open spec fn alpha_overruns(bytes: Seq<u8>) -> bool {
    &&& starts_animation(bytes)
    &&& holds_chunks(bytes)
    &&& chunk_of(bytes, TAG_ANMF as int) matches Some(at) && frame_overruns(bytes, at)
}

/// The four bytes of a number, low byte first.
pub open spec fn bytes_of(n: int) -> Seq<u8> {
    seq![
        (n % 256) as u8,
        (n / 256 % 256) as u8,
        (n / 65536 % 256) as u8,
        (n / 0x100_0000 % 256) as u8,
    ]
}

/// The file of a still picture: one chunk with a tag.
pub open spec fn still_file(tag: int, content: Seq<u8>) -> Seq<u8> {
    bytes_of(TAG_RIFF as int) + bytes_of(content.len() as int + 12) + bytes_of(TAG_WEBP as int) + bytes_of(
        tag,
    ) + bytes_of(content.len() as int) + content
}

/// At most `size` bytes from `at`, as far as there are any.
pub open spec fn part_of(bytes: Seq<u8>, at: int, size: int) -> Seq<u8> {
    bytes.subrange(
        at,
        if at + size <= bytes.len() {
            at + size
        } else {
            bytes.len() as int
        },
    )
}

/// Whether the alpha channel of the frame at `at` is compressed.
pub open spec fn alpha_is_packed(bytes: Seq<u8>, at: int) -> bool {
    bytes[at + 32] % 4 == 1
}

/// The compressed alpha channel of the frame at `at` as a file: it has all of a
/// lossless picture but its signature and size.
pub open spec fn alpha_file(bytes: Seq<u8>, at: int) -> Seq<u8> {
    still_file(
        TAG_VP8L as int,
        seq![LOSSLESS_SIGNATURE] + bytes_of(
            le24(bytes, at + 14) + 0x4000 * le24(bytes, at + 17),
        ) + part_of(bytes, at + 33, le32(bytes, at + 28) - 1),
    )
}

/// The picture in the frame at `at` as a file.
pub open spec fn picture_file(bytes: Seq<u8>, at: int) -> Seq<u8> {
    let size = le32(bytes, at + 28);
    still_file(TAG_VP8 as int, part_of(bytes, at + 40 + room_of(size), size))
}

/// A number is read back from its four bytes.
proof fn lemma_bytes_of(file: Seq<u8>, at: int, n: int)
    requires
        0 <= n <= u32::MAX,
        0 <= at,
        at + 4 <= file.len(),
        file.subrange(at, at + 4) == bytes_of(n),
    ensures
        le32(file, at) == n,
{
    let part = file.subrange(at, at + 4);
    assert(file[at] == part[0] && file[at + 1] == part[1] && file[at + 2] == part[2] && file[at + 3]
        == part[3]);
}

/// The file of a still picture is no animation.
pub proof fn still_files_do_not_overrun(tag: int, content: Seq<u8>)
    requires
        0 <= tag <= u32::MAX,
        tag != TAG_VP8X,
    ensures
        !alpha_overruns(still_file(tag, content)),
{
    let file = still_file(tag, content);
    assert(le32(file, 12) == tag) by {
        assert(file.subrange(12, 16) =~= bytes_of(tag));
        lemma_bytes_of(file, 12, tag);
    }
    assert(!starts_animation(file)) by {
        reveal(starts_animation);
    }
    reveal(alpha_overruns);
}

/// Two bytes as a number, low byte first.
fn read16(bytes: &[u8], at: usize) -> (r: u32)
    requires
        at + 2 <= bytes@.len(),
    ensures
        r == le16(bytes@, at as int),
        r < 0x1_0000,
{
    bytes[at] as u32 + 256 * bytes[at + 1] as u32
}

/// Three bytes as a number, low byte first.
fn read24(bytes: &[u8], at: usize) -> (r: u32)
    requires
        at + 3 <= bytes@.len() <= usize::MAX,
    ensures
        r == le24(bytes@, at as int),
        r < 0x100_0000,
{
    read16(bytes, at) + 65536 * bytes[at + 2] as u32
}

/// Four bytes as a number, low byte first.
fn read32(bytes: &[u8], at: usize) -> (r: u32)
    requires
        at + 4 <= bytes@.len() <= usize::MAX,
    ensures
        r == le32(bytes@, at as int),
{
    read16(bytes, at) + 65536 * read16(bytes, at + 2)
}

/// Bytes that the content of a chunk takes up.
fn take_room(size: u32) -> (r: u64)
    ensures
        r == room_of(size as int),
        size <= r <= u32::MAX,
{
    if size % 2 == 1 && size < u32::MAX {
        size as u64 + 1
    } else {
        size as u64
    }
}

/// Whether a tag is that of some chunk of the format.
fn check_tag(tag: u32) -> (r: bool)
    ensures
        r == is_tag(tag as int),
{
    tag == TAG_RIFF || tag == TAG_WEBP || tag == TAG_VP8 || tag == TAG_VP8L || tag == TAG_VP8X || tag
        == TAG_ANIM || tag == TAG_ANMF || tag == TAG_ALPH || tag == TAG_ICCP || tag == TAG_EXIF
        || tag == TAG_XMP
}

/// Whether a chunk of the format starts at `at` and before `end`.
fn check_chunk(bytes: &[u8], at: usize, end: u64) -> (r: bool)
    requires
        at <= bytes@.len() <= usize::MAX,
    ensures
        r == is_chunk(bytes@, at as int, end as int),
{
    (at as u64) < end && bytes.len() - at >= 8 && check_tag(read32(bytes, at))
}

/// Finds the first chunk with a tag.
fn find_chunk(bytes: &[u8], start: u64, end: u64, tag: u32) -> (r: Option<usize>)
    ensures
        match r {
            Some(at) => first_chunk(bytes@, start as int, end as int, tag as int) == Some(at as int)
                && at + 8 <= bytes@.len(),
            None => first_chunk(bytes@, start as int, end as int, tag as int) is None,
        },
{
    if start > bytes.len() as u64 {
        return None;
    }
    let mut at: usize = start as usize;
    while check_chunk(bytes, at, end)
        invariant
            at <= bytes@.len() <= usize::MAX,
            first_chunk(bytes@, start as int, end as int, tag as int) == first_chunk(
                bytes@,
                at as int,
                end as int,
                tag as int,
            ),
        decreases bytes@.len() - at,
    {
        if read32(bytes, at) == tag {
            return Some(at);
        }
        let room = take_room(read32(bytes, at + 4));
        if room > (bytes.len() - at - 8) as u64 {
            return None;
        }
        at = at + 8 + room as usize;
    }
    None
}

/// Whether every animation frame is long enough for the numbers that it starts
/// with.
fn check_frames(bytes: &[u8], start: u64, end: u64) -> (r: bool)
    ensures
        r == frames_are_long(bytes@, start as int, end as int),
{
    if start > bytes.len() as u64 {
        return true;
    }
    let mut at: usize = start as usize;
    while check_chunk(bytes, at, end)
        invariant
            at <= bytes@.len() <= usize::MAX,
            frames_are_long(bytes@, start as int, end as int) == frames_are_long(
                bytes@,
                at as int,
                end as int,
            ),
        decreases bytes@.len() - at,
    {
        let size = read32(bytes, at + 4);
        if read32(bytes, at) == TAG_ANMF && (size < 24 || bytes.len() - at < 24) {
            return false;
        }
        let room = take_room(size);
        if room > (bytes.len() - at - 8) as u64 {
            return true;
        }
        at = at + 8 + room as usize;
    }
    true
}

/// Whether the bytes start as an extended file with animation.
fn check_start(bytes: &[u8]) -> (r: bool)
    ensures
        r == starts_animation(bytes@),
        r ==> 30 <= bytes@.len() <= usize::MAX,
{
    proof {
        reveal(starts_animation);
    }
    if bytes.len() < 30 || read32(bytes, 0) != TAG_RIFF || read32(bytes, 8) != TAG_WEBP || read32(
        bytes,
        12,
    ) != TAG_VP8X {
        return false;
    }
    let flags = bytes[20];
    if flags >= 64 || flags % 2 == 1 || (flags / 2) % 2 != 1 || read24(bytes, 21) != 0 {
        return false;
    }
    let width = read24(bytes, 24) as u64 + 1;
    let height = read24(bytes, 27) as u64 + 1;
    let depth: u64 = if (flags / 16) % 2 == 1 {
        4
    } else {
        3
    };
    assert(width * height <= 0x100_0000 * 0x100_0000) by (nonlinear_arith)
        requires
            width <= 0x100_0000,
            height <= 0x100_0000,
    ;
    assert(width * height * depth <= 4 * (0x100_0000 * 0x100_0000)) by (nonlinear_arith)
        requires
            width * height <= 0x100_0000 * 0x100_0000,
            3 <= depth <= 4,
    ;
    width * height * depth <= PICTURE_LIMIT
}

/// Whether an animated file holds the chunks that its flags announce, and its
/// frames can be walked.
fn check_holdings(bytes: &[u8], start: u64, end: u64) -> (r: bool)
    requires
        bytes@.len() >= 30,
        start == chunks_start(bytes@),
        end == chunks_end(bytes@),
    ensures
        r == holds_chunks(bytes@),
{
    proof {
        reveal(holds_chunks);
    }
    let flags = bytes[20];
    if !check_frames(bytes, start, end) {
        return false;
    }
    if (flags / 32) % 2 == 1 && find_chunk(bytes, start, end, TAG_ICCP).is_none() {
        return false;
    }
    if (flags / 8) % 2 == 1 && find_chunk(bytes, start, end, TAG_EXIF).is_none() {
        return false;
    }
    if (flags / 4) % 2 == 1 && find_chunk(bytes, start, end, TAG_XMP).is_none() {
        return false;
    }
    match find_chunk(bytes, start, end, TAG_ANIM) {
        Some(at) => bytes.len() - at >= 14 && read32(bytes, at + 4) == 6,
        None => false,
    }
}

/// Whether a picture starts at `at` within `size` bytes.
fn check_picture(bytes: &[u8], at: usize, size: u32) -> (r: bool)
    requires
        at <= bytes@.len() <= usize::MAX,
    ensures
        r == starts_picture(bytes@, at as int, size as int),
{
    let left = bytes.len() - at;
    if left < 10 || bytes[at] % 2 != 0 || read24(bytes, at + 3) != PICTURE_MAGIC {
        return false;
    }
    let partition = read24(bytes, at) / 32;
    partition >= 2 && 10 + partition <= size && (left - 10) as u64 >= partition as u64 && bytes[at
        + 10] < 128
}

/// Whether the animation frame at `at` starts with an alpha channel, and the
/// picture behind it does not fit the frame.
fn check_frame(bytes: &[u8], at: usize) -> (r: bool)
    requires
        at + 8 <= bytes@.len(),
        bytes@.len() >= 30,
    ensures
        r == frame_overruns(bytes@, at as int),
{
    proof {
        reveal(frame_overruns);
    }
    let left = bytes.len() - at;
    if left < 33 || read32(bytes, at + 24) != TAG_ALPH || bytes[at + 23] >= 4 {
        return false;
    }
    let columns = read24(bytes, at + 14) as u64;
    let rows = read24(bytes, at + 17) as u64;
    if columns >= FRAME_LIMIT || rows >= FRAME_LIMIT {
        return false;
    }
    if 2 * read24(bytes, at + 8) as u64 + columns > read24(bytes, 24) as u64 || 2 * read24(
        bytes,
        at + 11,
    ) as u64 + rows > read24(bytes, 27) as u64 {
        return false;
    }
    let whole = read32(bytes, at + 4) as u64;
    let size = read32(bytes, at + 28);
    let room = take_room(size);
    if room + 32 > whole || left < 40 || room > (left - 40) as u64 {
        return false;
    }
    let picture = at + 40 + room as usize;
    if size as u64 + read32(bytes, picture - 4) as u64 + 32 > whole {
        return false;
    }
    assert((columns + 1) * (rows + 1) <= 0x4000 * 0x4000) by (nonlinear_arith)
        requires
            columns < 0x4000,
            rows < 0x4000,
    ;
    let pixels = (columns + 1) * (rows + 1);
    let coding = bytes[at + 32];
    if size < 1 || coding >= 32 || coding % 4 > 1 {
        return false;
    }
    if coding % 4 == 0 && (pixels >= size as u64 || pixels > (left - 33) as u64) {
        return false;
    }
    if !check_picture(bytes, picture, size) {
        return false;
    }
    let width = (read16(bytes, picture + 6) % 0x4000) as u64;
    let height = (read16(bytes, picture + 8) % 0x4000) as u64;
    width == 0 || pixels / width != height
}

/// Finds the first frame of an animated WebP file, if it has an alpha channel and a
/// picture that does not fit the frame.
pub fn find_overrun(bytes: &[u8]) -> (r: Option<usize>)
    ensures
        match r {
            Some(at) => {
                &&& alpha_overruns(bytes@)
                &&& chunk_of(bytes@, TAG_ANMF as int) == Some(at as int)
                &&& frame_overruns(bytes@, at as int)
            },
            None => !alpha_overruns(bytes@),
        },
{
    proof {
        reveal(alpha_overruns);
    }
    if !check_start(bytes) {
        return None;
    }
    let start = 20 + take_room(read32(bytes, 16));
    let size = read32(bytes, 4);
    let end: u64 = if size > 12 {
        start + size as u64 - 12
    } else {
        start
    };
    if !check_holdings(bytes, start, end) {
        return None;
    }
    match find_chunk(bytes, start, end, TAG_ANMF) {
        Some(at) => if check_frame(bytes, at) {
            Some(at)
        } else {
            None
        },
        None => None,
    }
}

/// Appends the four bytes of a number.
fn push_number(to: &mut Vec<u8>, n: u64)
    ensures
        final(to)@ == old(to)@ + bytes_of(n as int),
{
    to.push((n % 256) as u8);
    to.push((n / 256 % 256) as u8);
    to.push((n / 65536 % 256) as u8);
    to.push((n / 0x100_0000 % 256) as u8);
    assert(to@ =~= old(to)@ + bytes_of(n as int));
}

/// Appends at most `size` bytes from `at`.
fn push_part(to: &mut Vec<u8>, bytes: &[u8], at: usize, size: usize)
    requires
        at <= bytes@.len() <= usize::MAX,
    ensures
        final(to)@ == old(to)@ + part_of(bytes@, at as int, size as int),
{
    let end = if size <= bytes.len() - at {
        at + size
    } else {
        bytes.len()
    };
    let mut k: usize = at;
    while k < end
        invariant
            at <= k <= end <= bytes@.len(),
            to@ == old(to)@ + bytes@.subrange(at as int, k as int),
        decreases end - k,
    {
        to.push(bytes[k]);
        k = k + 1;
        assert(to@ =~= old(to)@ + bytes@.subrange(at as int, k as int));
    }
}

/// The file of a still picture.
fn build_still(tag: u32, content: &Vec<u8>) -> (r: Vec<u8>)
    requires
        content@.len() <= u32::MAX + 5,
    ensures
        r@ == still_file(tag as int, content@),
{
    let mut r: Vec<u8> = Vec::new();
    push_number(&mut r, TAG_RIFF as u64);
    push_number(&mut r, content.len() as u64 + 12);
    push_number(&mut r, TAG_WEBP as u64);
    push_number(&mut r, tag as u64);
    push_number(&mut r, content.len() as u64);
    push_part(&mut r, content, 0, content.len());
    assert(part_of(content@, 0, content@.len() as int) =~= content@);
    assert(r@ =~= still_file(tag as int, content@));
    r
}

/// The alpha channel of an overrun frame as a file, if it is compressed.
pub fn build_alpha(bytes: &[u8], at: usize) -> (r: Option<Vec<u8>>)
    requires
        frame_overruns(bytes@, at as int),
    ensures
        match r {
            Some(file) => alpha_is_packed(bytes@, at as int) && file@ == alpha_file(
                bytes@,
                at as int,
            ),
            None => !alpha_is_packed(bytes@, at as int),
        },
{
    proof {
        reveal(frame_overruns);
        assert(bytes@.len() == bytes.len());
    }
    if bytes[at + 32] % 4 != 1 {
        return None;
    }
    let columns = read24(bytes, at + 14) as u64;
    let rows = read24(bytes, at + 17) as u64;
    let size = read32(bytes, at + 28);
    let mut content: Vec<u8> = Vec::new();
    content.push(LOSSLESS_SIGNATURE);
    push_number(&mut content, columns + 0x4000 * rows);
    push_part(&mut content, bytes, at + 33, (size - 1) as usize);
    assert(content@ =~= seq![LOSSLESS_SIGNATURE] + bytes_of(
        le24(bytes@, at + 14) + 0x4000 * le24(bytes@, at + 17),
    ) + part_of(bytes@, at + 33, le32(bytes@, at + 28) - 1));
    Some(build_still(TAG_VP8L, &content))
}

/// The picture in an overrun frame as a file.
pub fn build_picture(bytes: &[u8], at: usize) -> (r: Vec<u8>)
    requires
        frame_overruns(bytes@, at as int),
    ensures
        r@ == picture_file(bytes@, at as int),
{
    proof {
        reveal(frame_overruns);
        assert(bytes@.len() == bytes.len());
    }
    let size = read32(bytes, at + 28);
    let picture = at + 40 + take_room(size) as usize;
    let mut content: Vec<u8> = Vec::new();
    push_part(&mut content, bytes, picture, size as usize);
    assert(content@ =~= part_of(bytes@, picture as int, size as int));
    build_still(TAG_VP8, &content)
}

/// Numbers come back: the four bytes of a number, wherever they stand, are read as
/// that number, low byte first; and the same for its low two or three bytes.
pub proof fn numbers_come_back(bytes: Seq<u8>, at: int, n: int)
    requires
        0 <= n <= u32::MAX,
        0 <= at,
        at + 4 <= bytes.len(),
        bytes.subrange(at, at + 4) == bytes_of(n),
    ensures
        bytes[at] == n % 256,
        le16(bytes, at) == n % 0x1_0000,
        le24(bytes, at) == n % 0x100_0000,
        le32(bytes, at) == n,
{
    lemma_bytes_of(bytes, at, n);
    let part = bytes.subrange(at, at + 4);
    assert(bytes[at] == part[0] && bytes[at + 1] == part[1] && bytes[at + 2] == part[2] && bytes[at
        + 3] == part[3]);
}

/// Chunks start at even places: a content takes up its size, and one byte more if
/// that is odd, as far as four bytes can say.
pub proof fn chunks_are_filled_up(size: int)
    requires
        0 <= size <= u32::MAX,
    ensures
        size <= room_of(size) <= size + 1,
        room_of(size) <= u32::MAX,
        size < u32::MAX ==> room_of(size) % 2 == 0,
{
}

/// The chunk that is found has the tag and starts among the chunks; every chunk
/// before it has another. Looking behind a chunk of another tag finds the same.
pub proof fn chunks_are_found_by_tag(bytes: Seq<u8>, at: int, end: int, tag: int)
    requires
        0 <= at,
    ensures
        first_chunk(bytes, at, end, tag) matches Some(p) ==> {
            &&& at <= p < end
            &&& p + 8 <= bytes.len()
            &&& le32(bytes, p) == tag
        },
        is_chunk(bytes, at, end) && le32(bytes, at) == tag ==> first_chunk(bytes, at, end, tag)
            == Some(at),
        is_chunk(bytes, at, end) && le32(bytes, at) != tag && at + 8 + room_of(
            le32(bytes, at + 4),
        ) <= bytes.len() ==> first_chunk(bytes, at, end, tag) == first_chunk(
            bytes,
            at + 8 + room_of(le32(bytes, at + 4)),
            end,
            tag,
        ),
    decreases bytes.len() - at,
{
    if is_chunk(bytes, at, end) && le32(bytes, at) != tag && next_chunk(bytes, at) <= bytes.len() {
        chunks_are_found_by_tag(bytes, next_chunk(bytes, at), end, tag);
    }
}

/// A picture fits a frame exactly if its rows are as many as whole rows of its width
/// go into the frame's pixels; so one of the frame's own size always does.
pub proof fn pictures_of_the_frames_size_fit(pixels: int, width: int, height: int)
    requires
        0 <= pixels,
        0 < width,
        0 <= height,
    ensures
        pixels == width * height ==> !overruns(pixels, width, height),
        !overruns(pixels, width, height) ==> width * height <= pixels < width * height + width,
        overruns(pixels, 0, height),
{
    assert(pixels == width * height ==> pixels / width == height) by (nonlinear_arith)
        requires
            0 < width,
    ;
    assert(pixels / width == height ==> width * height <= pixels < width * height + width)
        by (nonlinear_arith)
        requires
            0 < width,
            0 <= pixels,
    ;
}

/// The file of a still picture holds its content in one chunk with its tag, behind
/// the file's own tags and with both sizes stated.
pub proof fn still_files_hold_their_content(tag: int, content: Seq<u8>)
    requires
        0 <= tag <= u32::MAX,
        content.len() + 12 <= u32::MAX,
    ensures
        ({
            let file = still_file(tag, content);
            &&& file.len() == 20 + content.len()
            &&& le32(file, 0) == TAG_RIFF
            &&& le32(file, 4) == content.len() + 12
            &&& le32(file, 8) == TAG_WEBP
            &&& le32(file, 12) == tag
            &&& le32(file, 16) == content.len()
            &&& file.subrange(20, file.len() as int) == content
        }),
{
    let file = still_file(tag, content);
    assert(file.subrange(0, 4) =~= bytes_of(TAG_RIFF as int));
    assert(file.subrange(4, 8) =~= bytes_of(content.len() as int + 12));
    assert(file.subrange(8, 12) =~= bytes_of(TAG_WEBP as int));
    assert(file.subrange(12, 16) =~= bytes_of(tag));
    assert(file.subrange(16, 20) =~= bytes_of(content.len() as int));
    lemma_bytes_of(file, 0, TAG_RIFF as int);
    lemma_bytes_of(file, 4, content.len() as int + 12);
    lemma_bytes_of(file, 8, TAG_WEBP as int);
    lemma_bytes_of(file, 12, tag);
    lemma_bytes_of(file, 16, content.len() as int);
    assert(file.subrange(20, file.len() as int) =~= content);
}

/// Only animations whose first frame does not fit are held back: the file is an
/// extended WebP file with animation, the frame found is an animation frame that
/// starts with an alpha channel, and the picture behind that does not have the size
/// of the frame. A still file, a frame without an alpha channel and a frame whose
/// picture has its size are never held back.
pub proof fn only_unfitting_animations_are_held_back(bytes: Seq<u8>)
    requires
        alpha_overruns(bytes),
    ensures
        bytes.len() >= 30,
        bytes.subrange(0, 4) == seq![0x52u8, 0x49, 0x46, 0x46],
        bytes.subrange(8, 16) == seq![0x57u8, 0x45, 0x42, 0x50, 0x56, 0x50, 0x38, 0x58],
        bytes[20] / 2 % 2 == 1,
        chunk_of(bytes, TAG_ANMF as int) is Some,
        ({
            let at = chunk_of(bytes, TAG_ANMF as int)->0;
            let picture = at + 40 + room_of(le32(bytes, at + 28));
            &&& 0 <= at
            &&& picture + 10 <= bytes.len()
            &&& bytes.subrange(at, at + 4) == seq![0x41u8, 0x4e, 0x4d, 0x46]
            &&& bytes.subrange(at + 24, at + 28) == seq![0x41u8, 0x4c, 0x50, 0x48]
            &&& !(le16(bytes, picture + 6) % 0x4000 == le24(bytes, at + 14) + 1 && le16(
                bytes,
                picture + 8,
            ) % 0x4000 == le24(bytes, at + 17) + 1)
        }),
{
    assert(starts_animation(bytes) && chunk_of(bytes, TAG_ANMF as int) is Some && frame_overruns(
        bytes,
        chunk_of(bytes, TAG_ANMF as int)->0,
    )) by {
        reveal(alpha_overruns);
    }
    lemma_start_bytes(bytes);
    let at = chunk_of(bytes, TAG_ANMF as int)->0;
    assert(0 <= chunks_start(bytes));
    chunks_are_found_by_tag(bytes, chunks_start(bytes), chunks_end(bytes), TAG_ANMF as int);
    lemma_tag_bytes(bytes, at, seq![0x41u8, 0x4e, 0x4d, 0x46]);
    lemma_unfitting_frame(bytes, at);
}

/// The bytes of a tag.
proof fn lemma_tag_bytes(bytes: Seq<u8>, at: int, tag: Seq<u8>)
    requires
        0 <= at,
        at + 4 <= bytes.len(),
        tag.len() == 4,
        le32(bytes, at) == tag[0] + 256 * tag[1] + 65536 * tag[2] + 0x100_0000 * tag[3],
    ensures
        bytes.subrange(at, at + 4) == tag,
{
    assert(bytes[at] == tag[0] && bytes[at + 1] == tag[1] && bytes[at + 2] == tag[2] && bytes[at
        + 3] == tag[3]);
    assert(bytes.subrange(at, at + 4) =~= tag);
}

/// What an extended file with animation starts with.
proof fn lemma_start_bytes(bytes: Seq<u8>)
    requires
        starts_animation(bytes),
    ensures
        bytes.len() >= 30,
        bytes.subrange(0, 4) == seq![0x52u8, 0x49, 0x46, 0x46],
        bytes.subrange(8, 16) == seq![0x57u8, 0x45, 0x42, 0x50, 0x56, 0x50, 0x38, 0x58],
        bytes[20] / 2 % 2 == 1,
{
    reveal(starts_animation);
    let webp = seq![0x57u8, 0x45, 0x42, 0x50];
    let vp8x = seq![0x56u8, 0x50, 0x38, 0x58];
    lemma_tag_bytes(bytes, 0, seq![0x52u8, 0x49, 0x46, 0x46]);
    lemma_tag_bytes(bytes, 8, webp);
    lemma_tag_bytes(bytes, 12, vp8x);
    let first = bytes.subrange(8, 12);
    let second = bytes.subrange(12, 16);
    assert(bytes.subrange(8, 16) =~= first + second);
    assert(webp + vp8x =~= seq![0x57u8, 0x45, 0x42, 0x50, 0x56, 0x50, 0x38, 0x58]);
}

/// A frame that does not fit has an alpha channel and a picture of another size.
proof fn lemma_unfitting_frame(bytes: Seq<u8>, at: int)
    requires
        0 <= at,
        frame_overruns(bytes, at),
    ensures
        ({
            let picture = at + 40 + room_of(le32(bytes, at + 28));
            &&& picture + 10 <= bytes.len()
            &&& bytes.subrange(at + 24, at + 28) == seq![0x41u8, 0x4c, 0x50, 0x48]
            &&& !(le16(bytes, picture + 6) % 0x4000 == le24(bytes, at + 14) + 1 && le16(
                bytes,
                picture + 8,
            ) % 0x4000 == le24(bytes, at + 17) + 1)
        }),
{
    reveal(frame_overruns);
    lemma_tag_bytes(bytes, at + 24, seq![0x41u8, 0x4c, 0x50, 0x48]);
    let width = le24(bytes, at + 14) + 1;
    let height = le24(bytes, at + 17) + 1;
    assert(0 <= width * height) by (nonlinear_arith)
        requires
            width > 0,
            height > 0,
    ;
    pictures_of_the_frames_size_fit(width * height, width, height);
}

} // verus!
