//! SOG units, version 2.
//!
//! A unit is a `meta.json` with WebP textures beside it. Texel `g` of every
//! texture but the palette describes splat `g`.

use vstd::prelude::*;
use vstd::string::*;

use crate::error::{ReadError, ReadProblem};
use crate::float_bits::FloatBits;
use crate::gaussian::{
    is_padded, pad_to_multiple_of_32, padding_fills_one_block, Gaussian3d, PlanarGaussian3d,
    PositionBounds, PositionVisibility, Rotation, RotationComponent, ScaleOpacity,
    SphericalHarmonics, SH_CHANNELS, SH_COEFF_COUNT,
};
use crate::io::webp::{decode_webp, decoded};

verus! {

/// Bounds and files of the positions.
#[derive(Clone, Debug)]
pub struct SogMeans {
    pub mins: [FloatBits; 3],
    pub maxs: [FloatBits; 3],
    pub files: Vec<String>,
}

/// A codebook and the files whose bytes index it.
#[derive(Clone, Debug)]
pub struct SogCodebook {
    pub codebook: Vec<FloatBits>,
    pub files: Vec<String>,
}

/// Files of the rotations.
#[derive(Clone, Debug)]
pub struct SogQuats {
    pub files: Vec<String>,
}

/// The palette of the higher spherical-harmonic bands.
#[derive(Clone, Debug)]
pub struct SogShN {
    pub count: usize,
    pub bands: usize,
    pub codebook: Vec<FloatBits>,
    pub files: Vec<String>,
}

/// A unit's `meta.json`.
#[derive(Clone, Debug)]
pub struct SogMeta {
    pub version: u32,
    pub count: usize,
    pub means: SogMeans,
    pub scales: SogCodebook,
    pub quats: SogQuats,
    pub sh0: SogCodebook,
    pub sh_n: Option<SogShN>,
}

/// The decoded RGBA8 textures of a unit. Texel `g` starts at byte `4 * g`.
#[derive(Clone, Debug)]
pub struct SogTextures {
    pub means_l: Vec<u8>,
    pub means_u: Vec<u8>,
    pub quats: Vec<u8>,
    pub scales: Vec<u8>,
    pub sh0: Vec<u8>,
    /// bytes and width: the palette is addressed in two dimensions
    pub sh_n_centroids: Option<(Vec<u8>, usize)>,
    pub sh_n_labels: Option<Vec<u8>>,
}

/// Coefficients beyond the first that a palette of so many bands holds; none
/// for a number of bands that the format does not have.
pub open spec fn rest_coeffs(bands: int) -> int {
    if bands == 1 {
        3
    } else if bands == 2 {
        8
    } else if bands == 3 {
        15
    } else {
        0
    }
}

/// Coefficients beyond the first that a palette of so many bands holds.
fn rest_coeffs_of(bands: usize) -> (r: usize)
    ensures
        r == rest_coeffs(bands as int),
{
    match bands {
        1 => 3,
        2 => 8,
        3 => 15,
        _ => 0,
    }
}

impl SogMeta {
    /// Coefficients that the unit's palette adds.
    pub open spec fn palette_coeffs(self) -> int {
        match self.sh_n {
            Some(sh_n) => rest_coeffs(sh_n.bands as int),
            None => 0,
        }
    }

    /// Whether every texture that loading asks for is listed.
    pub open spec fn lists_textures(self) -> bool {
        self.means.files@.len() >= 2 ==> {
            &&& self.quats.files@.len() >= 1
            &&& self.scales.files@.len() >= 1
            &&& self.sh0.files@.len() >= 1
            &&& self.palette_coeffs() > 0 ==> self.sh_n->0.files@.len() >= 2
        }
    }
}

/// Value of two bytes, low one first.
pub open spec fn code16(low: u8, high: u8) -> int {
    low + 256 * high
}

/// Entry of a codebook; zero past its end.
pub open spec fn codebook_entry(codebook: Seq<FloatBits>, index: int) -> FloatBits {
    if 0 <= index < codebook.len() {
        codebook[index]
    } else {
        FloatBits { bits: 0 }
    }
}

/// Component `k` of the quaternion that a texel stores. An alpha of `252 + m`
/// says that component `m` was left out as the largest and that the first
/// three bytes are the others in order; any other alpha is the identity.
pub open spec fn rotation_component(a: u8, b: u8, c: u8, tag: u8, k: int) -> RotationComponent {
    if tag < 252 {
        if k == 0 {
            RotationComponent::One
        } else {
            RotationComponent::Zero
        }
    } else {
        let largest = tag - 252;
        if k == largest {
            RotationComponent::Largest
        } else {
            let place = if k < largest {
                k
            } else {
                k - 1
            };
            RotationComponent::Packed(
                if place == 0 {
                    a
                } else if place == 1 {
                    b
                } else {
                    c
                },
            )
        }
    }
}

impl SogTextures {
    /// Whether the textures hold a palette for the unit.
    pub open spec fn has_palette(self, meta: SogMeta) -> bool {
        meta.sh_n is Some && self.sh_n_centroids is Some && meta.palette_coeffs() > 0
    }

    /// Palette entry that splat `g` is labelled with.
    pub open spec fn label(self, g: int) -> int {
        code16(self.sh_n_labels->0[4 * g], self.sh_n_labels->0[4 * g + 1])
    }

    /// Byte of the palette for coefficient `j` and channel `ch` of entry
    /// `label`: 64 entries to a row, zero outside the texture.
    pub open spec fn centroid_code(self, meta: SogMeta, label: int, j: int, ch: int) -> int {
        let (rgba, width) = self.sh_n_centroids->0;
        let row = label / 64;
        let column = (label % 64) * meta.palette_coeffs() + j;
        if row < rgba@.len() as int / 4 / width as int && column < width {
            rgba@[4 * (row * width + column) + ch] as int
        } else {
            0
        }
    }

    /// Spherical-harmonic value `k` of splat `g`.
    pub open spec fn harmonic(self, meta: SogMeta, g: int, k: int) -> FloatBits {
        let coefficient = k / 3;
        let channel = k % 3;
        if coefficient == 0 {
            codebook_entry(meta.sh0.codebook@, self.sh0[4 * g + channel] as int)
        } else if self.has_palette(meta) && coefficient <= meta.palette_coeffs() && self.label(g)
            < meta.sh_n->0.count {
            codebook_entry(
                meta.sh_n->0.codebook@,
                self.centroid_code(meta, self.label(g), coefficient - 1, channel),
            )
        } else {
            FloatBits { bits: 0 }
        }
    }

    /// Whether `gaussian` is splat `g` of the unit.
    pub open spec fn is_splat(self, meta: SogMeta, g: int, gaussian: Gaussian3d) -> bool {
        &&& gaussian.position_visibility.position matches Some(position) && forall|k: int|
            0 <= k < 3 ==> #[trigger] position[k] == code16(
                self.means_l[4 * g + k],
                self.means_u[4 * g + k],
            )
        &&& forall|k: int|
            0 <= k < 4 ==> #[trigger] gaussian.rotation.rotation[k] == rotation_component(
                self.quats[4 * g],
                self.quats[4 * g + 1],
                self.quats[4 * g + 2],
                self.quats[4 * g + 3],
                k,
            )
        &&& gaussian.scale_opacity.log_scale matches Some(scale) && forall|k: int|
            0 <= k < 3 ==> #[trigger] scale[k] == codebook_entry(
                meta.scales.codebook@,
                self.scales[4 * g + k] as int,
            )
        &&& gaussian.scale_opacity.opacity == self.sh0[4 * g + 3]
        &&& forall|k: int|
            0 <= k < SH_COEFF_COUNT ==> #[trigger] gaussian.spherical_harmonic.coefficients[k]
                == self.harmonic(meta, g, k)
    }

    /// Whether two sets of textures hold the same bytes.
    pub open spec fn same_bytes(self, other: SogTextures) -> bool {
        &&& self.means_l@ == other.means_l@
        &&& self.means_u@ == other.means_u@
        &&& self.quats@ == other.quats@
        &&& self.scales@ == other.scales@
        &&& self.sh0@ == other.sh0@
        &&& match (self.sh_n_centroids, other.sh_n_centroids) {
            (Some((a, v)), Some((b, w))) => a@ == b@ && v == w,
            (None, None) => true,
            _ => false,
        }
        &&& match (self.sh_n_labels, other.sh_n_labels) {
            (Some(a), Some(b)) => a@ == b@,
            (None, None) => true,
            _ => false,
        }
    }

    /// Whether the textures reach far enough for the first `rows` splats.
    pub open spec fn covers(self, meta: SogMeta, rows: int) -> bool {
        &&& meta.sh_n is Some && self.sh_n_centroids is Some ==> meta.sh_n->0.bands <= 3
        &&& rows > 0 ==> {
            &&& self.means_l@.len() >= 4 * rows - 1
            &&& self.means_u@.len() >= 4 * rows - 1
            &&& self.quats@.len() >= 4 * rows
            &&& self.scales@.len() >= 4 * rows - 1
            &&& self.sh0@.len() >= 4 * rows
            &&& self.has_palette(meta) ==> {
                &&& self.sh_n_labels is Some
                &&& self.sh_n_labels->0@.len() >= 4 * rows - 2
                &&& (self.sh_n_centroids->0).1 > 0
            }
        }
    }
}

/// The first byte of texel `g`.
fn first_byte(textures: &SogTextures, g: usize) -> (r: usize)
    requires
        textures.sh0@.len() >= 4 * g,
    ensures
        r == 4 * g,
{
    assert(textures.sh0.len() == textures.sh0@.len());
    4 * g
}

/// Looks a codebook up.
fn lookup(codebook: &Vec<FloatBits>, index: usize) -> (r: FloatBits)
    ensures
        r == codebook_entry(codebook@, index as int),
{
    if index < codebook.len() {
        codebook[index]
    } else {
        FloatBits::zero()
    }
}

/// Puts two bytes together, low one first.
fn code16_of(low: u8, high: u8) -> (r: u16)
    ensures
        r == code16(low, high),
{
    low as u16 + 256 * high as u16
}

/// Unpacks a quaternion from the four bytes of its texel.
fn decode_rotation(a: u8, b: u8, c: u8, tag: u8) -> (r: Rotation)
    ensures
        forall|k: int|
            0 <= k < 4 ==> #[trigger] r.rotation[k] == rotation_component(a, b, c, tag, k),
{
    let pa = RotationComponent::Packed(a);
    let pb = RotationComponent::Packed(b);
    let pc = RotationComponent::Packed(c);
    let largest = RotationComponent::Largest;
    let rotation = match tag {
        252 => [largest, pa, pb, pc],
        253 => [pa, largest, pb, pc],
        254 => [pa, pb, largest, pc],
        255 => [pa, pb, pc, largest],
        _ => [
            RotationComponent::One,
            RotationComponent::Zero,
            RotationComponent::Zero,
            RotationComponent::Zero,
        ],
    };
    Rotation { rotation }
}

/// A texel inside a texture has its four bytes there.
proof fn lemma_texel_inside(length: int, width: int, row: int, column: int)
    requires
        0 <= length,
        0 < width,
        0 <= row < length / 4 / width,
        0 <= column < width,
    ensures
        0 <= row * width <= row * width + column < length / 4,
        4 * (row * width + column) + 3 < length,
{
    let texels = length / 4;
    assert((row + 1) * width <= texels) by (nonlinear_arith)
        requires
            0 < width,
            row + 1 <= texels / width,
    ;
    assert((row + 1) * width == row * width + width) by (nonlinear_arith);
    assert(0 <= row * width) by (nonlinear_arith)
        requires
            0 <= row,
            0 < width,
    ;
}

/// Reads the palette byte for coefficient `j` and channel `ch` of an entry.
fn centroid_code_of(
    textures: &SogTextures,
    meta: &SogMeta,
    coeffs: usize,
    label: usize,
    j: usize,
    ch: usize,
) -> (r: u8)
    requires
        textures.has_palette(*meta),
        (textures.sh_n_centroids->0).1 > 0,
        coeffs == meta.palette_coeffs(),
        label < 65536,
        j < coeffs,
        ch < 3,
    ensures
        r == textures.centroid_code(*meta, label as int, j as int, ch as int),
{
    match &textures.sh_n_centroids {
        Some((rgba, width)) => {
            let row = label / 64;
            let height = rgba.len() / 4 / *width;
            assert((label % 64) * coeffs <= 63 * 15) by (nonlinear_arith)
                requires
                    coeffs <= 15,
            ;
            let column = (label % 64) * coeffs + j;
            if row < height && column < *width {
                proof {
                    lemma_texel_inside(
                        rgba@.len() as int,
                        *width as int,
                        row as int,
                        column as int,
                    );
                }
                rgba[4 * (row * *width + column) + ch]
            } else {
                0
            }
        },
        None => 0,
    }
}

/// Decodes the spherical harmonics of splat `g`.
fn decode_harmonics(meta: &SogMeta, textures: &SogTextures, g: usize) -> (r: SphericalHarmonics)
    requires
        textures.covers(*meta, g + 1),
    ensures
        forall|k: int|
            0 <= k < SH_COEFF_COUNT ==> #[trigger] r.coefficients[k] == textures.harmonic(
                *meta,
                g as int,
                k,
            ),
{
    let o: usize = first_byte(textures, g);
    let mut harmonics = SphericalHarmonics::zero();
    let coeffs: usize = match (&meta.sh_n, &textures.sh_n_centroids) {
        (Some(sh_n), Some(_)) => rest_coeffs_of(sh_n.bands),
        _ => 0,
    };
    let label: Option<usize> = match (&meta.sh_n, &textures.sh_n_labels) {
        (Some(sh_n), Some(labels)) => if coeffs > 0 {
            let label = code16_of(labels[o], labels[o + 1]) as usize;
            if label < sh_n.count {
                Some(label)
            } else {
                None
            }
        } else {
            None
        },
        _ => None,
    };
    let mut k: usize = 0;
    while k < SH_COEFF_COUNT
        invariant
            k <= SH_COEFF_COUNT,
            o == 4 * g,
            textures.covers(*meta, g + 1),
            textures.has_palette(*meta) ==> coeffs == meta.palette_coeffs(),
            !textures.has_palette(*meta) ==> coeffs == 0,
            coeffs > 0 ==> textures.has_palette(*meta),
            label is Some <==> textures.has_palette(*meta) && textures.label(g as int)
                < meta.sh_n->0.count,
            label matches Some(l) ==> l == textures.label(g as int) && l < 65536,
            forall|i: int|
                0 <= i < k ==> #[trigger] harmonics.coefficients[i] == textures.harmonic(
                    *meta,
                    g as int,
                    i,
                ),
            forall|i: int|
                k <= i < SH_COEFF_COUNT ==> #[trigger] harmonics.coefficients[i] == (FloatBits {
                    bits: 0,
                }),
        decreases SH_COEFF_COUNT - k,
    {
        let coefficient = k / SH_CHANNELS;
        let channel = k % SH_CHANNELS;
        if coefficient == 0 {
            harmonics.coefficients[k] = lookup(
                &meta.sh0.codebook,
                textures.sh0[o + channel] as usize,
            );
        } else if coefficient <= coeffs {
            if let Some(label) = label {
                if let Some(sh_n) = &meta.sh_n {
                    let code = centroid_code_of(
                        textures,
                        meta,
                        coeffs,
                        label,
                        coefficient - 1,
                        channel,
                    );
                    harmonics.coefficients[k] = lookup(&sh_n.codebook, code as usize);
                }
            }
        }
        k = k + 1;
    }
    harmonics
}

/// Decodes splat `g`.
fn decode_splat(meta: &SogMeta, textures: &SogTextures, g: usize) -> (r: Gaussian3d)
    requires
        textures.covers(*meta, g + 1),
    ensures
        textures.is_splat(*meta, g as int, r),
{
    let o: usize = first_byte(textures, g);
    Gaussian3d {
        position_visibility: PositionVisibility {
            position: Some(
                [
                    code16_of(textures.means_l[o], textures.means_u[o]),
                    code16_of(textures.means_l[o + 1], textures.means_u[o + 1]),
                    code16_of(textures.means_l[o + 2], textures.means_u[o + 2]),
                ],
            ),
        },
        spherical_harmonic: decode_harmonics(meta, textures, g),
        rotation: decode_rotation(
            textures.quats[o],
            textures.quats[o + 1],
            textures.quats[o + 2],
            textures.quats[o + 3],
        ),
        scale_opacity: ScaleOpacity {
            log_scale: Some(
                [
                    lookup(&meta.scales.codebook, textures.scales[o] as usize),
                    lookup(&meta.scales.codebook, textures.scales[o + 1] as usize),
                    lookup(&meta.scales.codebook, textures.scales[o + 2] as usize),
                ],
            ),
            opacity: textures.sh0[o + 3],
        },
    }
}

/// Rows that a texture must have for a range to be read.
pub open spec fn rows_read(offset: int, count: int) -> int {
    if count == 0 {
        0
    } else {
        offset + count
    }
}

/// Whether decoding `count` splats of a unit from `offset` on gives `r`: the splats
/// of these rows, or a refusal where they end after the last.
pub open spec fn range_decodes(
    meta: SogMeta,
    textures: SogTextures,
    offset: usize,
    count: usize,
    r: Result<Vec<Gaussian3d>, ReadError>,
) -> bool {
    if offset + count > meta.count {
        r is Err && r->Err_0@ == (ReadProblem::<Seq<char>>::RangeOutOfBounds {
            offset,
            end: (offset + count) as usize,
            count: meta.count,
        })
    } else {
        r is Ok && r->Ok_0@.len() == count && forall|i: int|
            0 <= i < count ==> textures.is_splat(meta, offset + i, #[trigger] r->Ok_0@[i])
    }
}

/// Decodes splats `offset..offset + count` of a unit, without touching the
/// others.
pub fn decode_range(meta: &SogMeta, textures: &SogTextures, offset: usize, count: usize) -> (r:
    Result<Vec<Gaussian3d>, ReadError>)
    requires
        offset + count <= usize::MAX,
        offset + count <= meta.count ==> textures.covers(*meta, rows_read(offset as int, count as int)),
    ensures
        range_decodes(*meta, *textures, offset, count, r),
{
    if offset + count > meta.count {
        return Err(
            ReadProblem::RangeOutOfBounds { offset, end: offset + count, count: meta.count },
        );
    }
    let mut gaussians: Vec<Gaussian3d> = Vec::with_capacity(count);
    let mut i: usize = 0;
    while i < count
        invariant
            i <= count,
            offset + count <= meta.count,
            textures.covers(*meta, rows_read(offset as int, count as int)),
            gaussians@.len() == i,
            forall|k: int|
                0 <= k < i ==> textures.is_splat(*meta, offset + k, #[trigger] gaussians@[k]),
        decreases count - i,
    {
        gaussians.push(decode_splat(meta, textures, offset + i));
        i = i + 1;
    }
    Ok(gaussians)
}

/// The answer to a request for a file.
pub type Reply = Result<Vec<u8>, ReadError>;

/// The view of an answer.
pub open spec fn reply_view(reply: Reply) -> Result<Seq<u8>, ReadProblem<Seq<char>>> {
    match reply {
        Ok(bytes) => Ok(bytes@),
        Err(e) => Err(e@),
    }
}

/// The texture `name` out of an answer.
pub open spec fn loaded(
    name: Seq<char>,
    reply: Result<Seq<u8>, ReadProblem<Seq<char>>>,
) -> Result<(Seq<u8>, nat), ReadProblem<Seq<char>>> {
    match reply {
        Ok(bytes) => decoded(name, bytes),
        Err(e) => Err(e),
    }
}

/// Whether `fetch` may answer a request for `name` with `reply`.
pub open spec fn answers<F: FnMut(&str) -> Reply>(
    fetch: F,
    name: Seq<char>,
    reply: Result<Seq<u8>, ReadProblem<Seq<char>>>,
) -> bool {
    exists|n: &str, o: Reply| #[trigger]
        fetch.ensures((n,), o) && n@ == name && reply_view(o) == reply
}

/// Whether `fetch` may answer requests for the first names with `replies`.
pub open spec fn answers_all<F: FnMut(&str) -> Reply>(
    fetch: F,
    names: Seq<Seq<char>>,
    replies: Seq<Result<Seq<u8>, ReadProblem<Seq<char>>>>,
) -> bool {
    &&& replies.len() <= names.len()
    &&& forall|k: int|
        0 <= k < replies.len() ==> answers(fetch, names[k], #[trigger] replies[k])
}

/// The texts of a list of strings.
pub open spec fn texts(list: Seq<String>) -> Seq<Seq<char>> {
    list.map_values(|s: String| s@)
}

impl SogMeta {
    /// Names of the textures that every unit has, in the order of loading.
    pub open spec fn base_names(self) -> Seq<Seq<char>> {
        seq![
            self.means.files[0]@,
            self.means.files[1]@,
            self.quats.files[0]@,
            self.scales.files[0]@,
            self.sh0.files[0]@,
        ]
    }

    /// Names of the textures that loading asks for, in order.
    pub open spec fn requested(self) -> Seq<Seq<char>> {
        if self.means.files@.len() < 2 {
            Seq::empty()
        } else if self.palette_coeffs() > 0 {
            self.base_names() + seq![self.sh_n->0.files[0]@, self.sh_n->0.files[1]@]
        } else {
            self.base_names()
        }
    }

    /// The texture behind request `k`.
    pub open spec fn image(
        self,
        replies: Seq<Result<Seq<u8>, ReadProblem<Seq<char>>>>,
        k: int,
    ) -> Result<(Seq<u8>, nat), ReadProblem<Seq<char>>> {
        loaded(self.requested()[k], replies[k])
    }

    /// Whether the texture behind request `k` has a texel for every splat.
    pub open spec fn roomy(
        self,
        replies: Seq<Result<Seq<u8>, ReadProblem<Seq<char>>>>,
        k: int,
    ) -> bool {
        self.image(replies, k) matches Ok((rgba, _)) && rgba.len() as int / 4 >= self.count
    }

    /// Whether `textures` are those of the answers.
    pub open spec fn textures_from(
        self,
        replies: Seq<Result<Seq<u8>, ReadProblem<Seq<char>>>>,
        textures: SogTextures,
    ) -> bool {
        &&& self.image(replies, 0) matches Ok((rgba, _)) && textures.means_l@ == rgba
        &&& self.image(replies, 1) matches Ok((rgba, _)) && textures.means_u@ == rgba
        &&& self.image(replies, 2) matches Ok((rgba, _)) && textures.quats@ == rgba
        &&& self.image(replies, 3) matches Ok((rgba, _)) && textures.scales@ == rgba
        &&& self.image(replies, 4) matches Ok((rgba, _)) && textures.sh0@ == rgba
        &&& if self.palette_coeffs() > 0 {
            &&& self.image(replies, 5) matches Ok((rgba, width))
                && textures.sh_n_centroids matches Some((centroids, w))
                && centroids@ == rgba && w == width
            &&& self.image(replies, 6) matches Ok((rgba, _))
                && textures.sh_n_labels matches Some(labels) && labels@ == rgba
        } else {
            textures.sh_n_centroids is None && textures.sh_n_labels is None
        }
    }

    /// Whether loading ends with `r` after exactly these answers: it stops at
    /// the first texture that cannot be had, checks the sizes of the five
    /// textures that every unit has, and only then turns to the palette.
    pub open spec fn loads(
        self,
        replies: Seq<Result<Seq<u8>, ReadProblem<Seq<char>>>>,
        r: Result<SogTextures, ReadError>,
    ) -> bool {
        let n = replies.len() as int;
        if self.means.files@.len() < 2 {
            n == 0 && r is Err && r->Err_0@ == ReadProblem::<Seq<char>>::MeansFiles
        } else {
            &&& forall|k: int| 0 <= k < n - 1 ==> (#[trigger] self.image(replies, k)) is Ok
            &&& n > 5 ==> forall|k: int| 0 <= k < 5 ==> #[trigger] self.roomy(replies, k)
            &&& if n > 0 && self.image(replies, n - 1) is Err {
                r is Err && r->Err_0@ == self.image(replies, n - 1)->Err_0
            } else if exists|k: int| 0 <= k < 5 && !#[trigger] self.roomy(replies, k) {
                n == 5 && r is Err && exists|k: int|
                    0 <= k < 5 && !(#[trigger] self.roomy(replies, k)) && (forall|j: int|
                        0 <= j < k ==> #[trigger] self.roomy(replies, j)) && r->Err_0@
                        == (ReadProblem::TextureTooSmall { name: self.requested()[k] })
            } else if self.palette_coeffs() == 0 {
                n == 5 && r is Ok && self.textures_from(replies, r->Ok_0)
            } else {
                let width = (self.image(replies, 5)->Ok_0).1;
                let expected = 64 * self.palette_coeffs();
                n == 7 && if !self.roomy(replies, 6) {
                    r is Err && r->Err_0@ == ReadProblem::<Seq<char>>::LabelsTooSmall
                } else if width != expected {
                    r is Err && r->Err_0@ == (ReadProblem::<Seq<char>>::CentroidWidth {
                        width: width as usize,
                        expected: expected as usize,
                        bands: self.sh_n->0.bands,
                    })
                } else {
                    r is Ok && self.textures_from(replies, r->Ok_0)
                }
            }
        }
    }

    /// Whether every texture that loading asks for is listed.
    pub fn all_textures_listed(&self) -> (r: bool)
        ensures
            r == self.lists_textures(),
    {
        if self.means.files.len() < 2 {
            return true;
        }
        if self.quats.files.len() < 1 || self.scales.files.len() < 1 || self.sh0.files.len() < 1 {
            return false;
        }
        match &self.sh_n {
            Some(sh_n) => rest_coeffs_of(sh_n.bands) == 0 || sh_n.files.len() >= 2,
            None => true,
        }
    }

    /// Names of the textures that loading asks for, in order.
    fn requests(&self) -> (r: Vec<&str>)
        requires
            self.lists_textures(),
            self.means.files@.len() >= 2,
        ensures
            r@.len() == self.requested().len(),
            forall|k: int| 0 <= k < r@.len() ==> (#[trigger] r@[k])@ == self.requested()[k],
    {
        let mut names: Vec<&str> = Vec::new();
        names.push(self.means.files[0].as_str());
        names.push(self.means.files[1].as_str());
        names.push(self.quats.files[0].as_str());
        names.push(self.scales.files[0].as_str());
        names.push(self.sh0.files[0].as_str());
        if let Some(sh_n) = &self.sh_n {
            if rest_coeffs_of(sh_n.bands) > 0 {
                names.push(sh_n.files[0].as_str());
                names.push(sh_n.files[1].as_str());
            }
        }
        names
    }

    /// Finds the first of the five textures that every unit has with fewer
    /// texels than splats.
    fn first_too_small(&self, images: &Vec<(Vec<u8>, usize)>) -> (r: Option<usize>)
        requires
            images@.len() == 5,
        ensures
            match r {
                Some(k) => k < 5 && images@[k as int].0@.len() as int / 4 < self.count && forall|
                    j: int,
                |
                    0 <= j < k ==> (#[trigger] images@[j]).0@.len() as int / 4 >= self.count,
                None => forall|j: int|
                    0 <= j < 5 ==> (#[trigger] images@[j]).0@.len() as int / 4 >= self.count,
            },
    {
        let mut k: usize = 0;
        while k < 5
            invariant
                k <= 5,
                images@.len() == 5,
                forall|j: int|
                    0 <= j < k ==> (#[trigger] images@[j]).0@.len() as int / 4 >= self.count,
            decreases 5 - k,
        {
            if images[k].0.len() / 4 < self.count {
                return Some(k);
            }
            k = k + 1;
        }
        None
    }

    /// Loads and decodes the textures of the unit. `fetch` resolves a name from
    /// `meta.json` to the bytes of the file.
    pub fn load_textures<F: FnMut(&str) -> Reply>(&self, fetch: F) -> (r: Result<
        SogTextures,
        ReadError,
    >)
        requires
            self.lists_textures(),
            forall|name: &str| #[trigger] fetch.requires((name,)),
        ensures
            exists|replies: Seq<Result<Seq<u8>, ReadProblem<Seq<char>>>>| #[trigger]
                answers_all(fetch, self.requested(), replies) && self.loads(replies, r),
            r is Ok ==> r->Ok_0.covers(*self, self.count as int),
    {
        let ghost mut replies: Seq<Result<Seq<u8>, ReadProblem<Seq<char>>>> = Seq::empty();
        let mut ask = fetch;
        if self.means.files.len() < 2 {
            assert(answers_all(fetch, self.requested(), replies));
            return Err(ReadProblem::MeansFiles);
        }
        let names = self.requests();
        let mut images: Vec<(Vec<u8>, usize)> = Vec::new();
        while images.len() < names.len()
            invariant
                ask == fetch,
                forall|name: &str| #[trigger] fetch.requires((name,)),
                self.means.files@.len() >= 2,
                names@.len() == self.requested().len(),
                forall|k: int|
                    0 <= k < names@.len() ==> (#[trigger] names@[k])@ == self.requested()[k],
                images@.len() <= names@.len(),
                replies.len() == images@.len(),
                answers_all(fetch, self.requested(), replies),
                forall|k: int|
                    0 <= k < images@.len() ==> #[trigger] self.image(replies, k) == Ok::<
                        (Seq<u8>, nat),
                        ReadProblem<Seq<char>>,
                    >((images@[k].0@, images@[k].1 as nat)),
                images@.len() >= 5 ==> forall|k: int|
                    0 <= k < 5 ==> #[trigger] self.roomy(replies, k),
            decreases names@.len() - images@.len(),
        {
            let name = names[images.len()];
            let ghost before = replies;
            let reply = ask(name);
            proof {
                replies = replies.push(reply_view(reply));
                assert(answers(fetch, name@, reply_view(reply)));
                assert(answers_all(fetch, self.requested(), replies));
                assert forall|k: int| 0 <= k < before.len() implies self.image(before, k)
                    == #[trigger] self.image(replies, k) by {}
                assert forall|k: int| 0 <= k < before.len() implies self.roomy(before, k)
                    == #[trigger] self.roomy(replies, k) by {}
            }
            match reply {
                Ok(bytes) => match decode_webp(name, bytes.as_slice()) {
                    Ok(image) => {
                        images.push(image);
                    },
                    Err(e) => {
                        assert(self.loads(replies, Err(e)));
                        return Err(e);
                    },
                },
                Err(e) => {
                    assert(self.loads(replies, Err(e)));
                    return Err(e);
                },
            }
            if images.len() == 5 {
                assert forall|j: int| 0 <= j < 5 implies #[trigger] self.roomy(replies, j) == (
                images@[j].0@.len() as int / 4 >= self.count) by {
                    assert(self.image(replies, j) is Ok);
                }
                if let Some(k) = self.first_too_small(&images) {
                    let e: ReadError = ReadProblem::TextureTooSmall { name: names[k].to_owned() };
                    assert(!self.roomy(replies, k as int));
                    assert(self.loads(replies, Err(e)));
                    return Err(e);
                }
            }
        }
        assert(forall|k: int| 0 <= k < replies.len() ==> (#[trigger] self.image(replies, k)) is Ok);
        let (sh_n_centroids, sh_n_labels) = match &self.sh_n {
            Some(sh_n) if images.len() == 7 => {
                let expected = 64 * rest_coeffs_of(sh_n.bands);
                let labels = images.pop().unwrap().0;
                let centroids = images.pop().unwrap();
                if labels.len() / 4 < self.count {
                    assert(!self.roomy(replies, 6));
                    return Err(ReadProblem::LabelsTooSmall);
                }
                assert(self.roomy(replies, 6));
                if centroids.1 != expected {
                    return Err(
                        ReadProblem::CentroidWidth {
                            width: centroids.1,
                            expected,
                            bands: sh_n.bands,
                        },
                    );
                }
                (Some(centroids), Some(labels))
            },
            _ => (None, None),
        };
        let sh0 = images.pop().unwrap().0;
        let scales = images.pop().unwrap().0;
        let quats = images.pop().unwrap().0;
        let means_u = images.pop().unwrap().0;
        let means_l = images.pop().unwrap().0;
        let textures = SogTextures {
            means_l,
            means_u,
            quats,
            scales,
            sh0,
            sh_n_centroids,
            sh_n_labels,
        };
        proof {
            assert(self.roomy(replies, 0) && self.roomy(replies, 1) && self.roomy(replies, 2)
                && self.roomy(replies, 3) && self.roomy(replies, 4));
            assert(self.textures_from(replies, textures));
        }
        Ok(textures)
    }
}

/// What a parsed `meta.json` amounts to: only version 2 is read.
pub open spec fn checked_meta(parsed: Result<SogMeta, String>) -> Result<
    SogMeta,
    ReadProblem<Seq<char>>,
> {
    match parsed {
        Err(reason) => Err(ReadProblem::MetaParse { reason: reason@ }),
        Ok(meta) => if meta.version != 2 {
            Err(ReadProblem::MetaVersion { version: meta.version })
        } else {
            Ok(meta)
        },
    }
}

/// The view of a checked `meta.json`.
pub open spec fn meta_view(r: Result<SogMeta, ReadError>) -> Result<
    SogMeta,
    ReadProblem<Seq<char>>,
> {
    match r {
        Ok(meta) => Ok(meta),
        Err(e) => Err(e@),
    }
}

impl SogMeta {
    /// All names in `meta.json`, in the order of its attributes.
    pub open spec fn listed(self) -> Seq<Seq<char>> {
        texts(self.means.files@) + texts(self.quats.files@) + texts(self.scales.files@) + texts(
            self.sh0.files@,
        ) + match self.sh_n {
            Some(sh_n) => texts(sh_n.files@),
            None => Seq::empty(),
        }
    }

    /// All texture names in `meta.json`, in the order of its attributes.
    pub fn texture_files(&self) -> (r: Vec<&str>)
        ensures
            r@.map_values(|s: &str| s@) == self.listed(),
    {
        let mut files: Vec<&str> = Vec::new();
        append_names(&mut files, &self.means.files);
        append_names(&mut files, &self.quats.files);
        append_names(&mut files, &self.scales.files);
        append_names(&mut files, &self.sh0.files);
        if let Some(sh_n) = &self.sh_n {
            append_names(&mut files, &sh_n.files);
        }
        assert(files@.map_values(|s: &str| s@) =~= self.listed());
        files
    }

    /// Accepts a parsed `meta.json` of version 2.
    pub fn checked(parsed: Result<SogMeta, String>) -> (r: Result<SogMeta, ReadError>)
        ensures
            meta_view(r) == checked_meta(parsed),
    {
        match parsed {
            Err(reason) => Err(ReadProblem::MetaParse { reason }),
            Ok(meta) => if meta.version != 2 {
                Err(ReadProblem::MetaVersion { version: meta.version })
            } else {
                Ok(meta)
            },
        }
    }

    /// Reads `meta.json`: `parse` turns its bytes into a description of a unit,
    /// of which only version 2 is accepted.
    pub fn from_json<P: FnOnce(&[u8]) -> Result<SogMeta, String>>(bytes: &[u8], parse: P) -> (r:
        Result<SogMeta, ReadError>)
        requires
            parse.requires((bytes,)),
        ensures
            exists|parsed: Result<SogMeta, String>| #[trigger]
                parse.ensures((bytes,), parsed) && meta_view(r) == checked_meta(parsed),
    {
        SogMeta::checked(parse(bytes))
    }

    /// The bounds of the positions.
    pub open spec fn bounds(self) -> PositionBounds {
        PositionBounds { mins: self.means.mins, maxs: self.means.maxs }
    }

    /// Whether `cloud` is the whole unit, padded to full blocks.
    pub open spec fn is_whole(self, textures: SogTextures, cloud: PlanarGaussian3d) -> bool {
        &&& cloud.wf()
        &&& cloud.bounds == self.bounds()
        &&& exists|decoded: Seq<Gaussian3d>| #[trigger]
            is_padded(decoded, cloud.splats()) && decoded.len() == self.count && forall|g: int|
                0 <= g < self.count ==> textures.is_splat(self, g, #[trigger] decoded[g])
    }

    /// Whether reading the unit ends with `r` after exactly these answers.
    pub open spec fn reads(
        self,
        replies: Seq<Result<Seq<u8>, ReadProblem<Seq<char>>>>,
        r: Result<PlanarGaussian3d, ReadError>,
    ) -> bool {
        exists|t: Result<SogTextures, ReadError>| #[trigger]
            self.loads(replies, t) && match t {
                Ok(textures) => r is Ok && self.is_whole(textures, r->Ok_0),
                Err(e) => r is Err && r->Err_0@ == e@,
            }
    }
}

/// Whether reading a unit may end with `r`, where `may_answer` says how requests
/// for files may be answered: `meta.json` is parsed first, then the textures that
/// it names are asked for.
pub open spec fn unit_reads<P: FnOnce(&[u8]) -> Result<SogMeta, String>>(
    parse: P,
    meta_bytes: &[u8],
    may_answer: spec_fn(Seq<char>, Result<Seq<u8>, ReadProblem<Seq<char>>>) -> bool,
    r: Result<PlanarGaussian3d, ReadError>,
) -> bool {
    exists|parsed: Result<SogMeta, String>| #[trigger]
        parse.ensures((meta_bytes,), parsed) && match checked_meta(parsed) {
            Err(e) => r is Err && r->Err_0@ == e,
            Ok(meta) => exists|replies: Seq<Result<Seq<u8>, ReadProblem<Seq<char>>>>| #[trigger]
                meta.reads(replies, r) && replies.len() <= meta.requested().len() && forall|k: int|
                    0 <= k < replies.len() ==> may_answer(
                        meta.requested()[k],
                        #[trigger] replies[k],
                    ),
        }
}

/// Appends the texts of a list.
fn append_names<'a>(files: &mut Vec<&'a str>, list: &'a Vec<String>)
    ensures
        final(files)@.map_values(|s: &str| s@) == old(files)@.map_values(|s: &str| s@) + texts(
            list@,
        ),
{
    let mut k: usize = 0;
    while k < list.len()
        invariant
            k <= list@.len(),
            files@.map_values(|s: &str| s@) =~= old(files)@.map_values(|s: &str| s@) + texts(
                list@.subrange(0, k as int),
            ),
        decreases list@.len() - k,
    {
        let ghost before = files@;
        files.push(list[k].as_str());
        k = k + 1;
        assert(files@.map_values(|s: &str| s@) =~= before.map_values(|s: &str| s@).push(
            list@[k - 1]@,
        ));
        assert(texts(list@.subrange(0, k as int)) =~= texts(list@.subrange(0, k - 1)).push(
            list@[k - 1]@,
        ));
    }
    assert(list@.subrange(0, k as int) =~= list@);
}

/// Reads a whole unit: its `meta.json`, then the textures that it names, and
/// decodes every splat, padded to full blocks.
pub fn parse_sog<P: FnOnce(&[u8]) -> Result<SogMeta, String>, F: FnMut(&str) -> Reply>(
    meta_bytes: &[u8],
    parse: P,
    fetch: F,
) -> (r: Result<PlanarGaussian3d, ReadError>)
    requires
        parse.requires((meta_bytes,)),
        forall|meta: SogMeta| #[trigger]
            parse.ensures((meta_bytes,), Ok(meta)) && meta.version == 2 ==> meta.lists_textures(),
        forall|name: &str| #[trigger] fetch.requires((name,)),
    ensures
        unit_reads(
            parse,
            meta_bytes,
            |name: Seq<char>, reply: Result<Seq<u8>, ReadProblem<Seq<char>>>|
                answers(fetch, name, reply),
            r,
        ),
{
    let parsed = parse(meta_bytes);
    let ghost what = parsed;
    assert(parse.ensures((meta_bytes,), what));
    let meta = match SogMeta::checked(parsed) {
        Ok(meta) => meta,
        Err(e) => {
            return Err(e);
        },
    };
    assert(what == Ok::<SogMeta, String>(meta));
    let loading = meta.load_textures(fetch);
    let ghost replies = choose|replies: Seq<Result<Seq<u8>, ReadProblem<Seq<char>>>>| #[trigger]
        answers_all(fetch, meta.requested(), replies) && meta.loads(replies, loading);
    let textures = match loading {
        Ok(textures) => textures,
        Err(e) => {
            assert(meta.loads(replies, loading));
            assert(meta.reads(replies, Err(e)));
            return Err(e);
        },
    };
    let decoding = decode_range(&meta, &textures, 0, meta.count);
    match decoding {
        Ok(gaussians) => {
            let ghost decoded = gaussians@;
            let bounds = PositionBounds { mins: meta.means.mins, maxs: meta.means.maxs };
            let cloud = PlanarGaussian3d::from_interleaved(bounds, pad_to_multiple_of_32(gaussians));
            proof {
                assert(is_padded(decoded, cloud.splats()));
                assert forall|g: int| 0 <= g < meta.count implies textures.is_splat(
                    meta,
                    g,
                    #[trigger] decoded[g],
                ) by {
                    assert(textures.is_splat(meta, 0 + g, decoded[g]));
                }
                assert(meta.is_whole(textures, cloud));
                assert(meta.loads(replies, loading));
                assert(meta.reads(replies, Ok(cloud)));
            }
            Ok(cloud)
        },
        Err(e) => Err(e),
    }
}

/// A splat of a unit is one splat: whatever decodes row `g` gives the same value.
pub proof fn splats_are_determined(
    meta: SogMeta,
    textures: SogTextures,
    g: int,
    a: Gaussian3d,
    b: Gaussian3d,
)
    requires
        textures.is_splat(meta, g, a),
        textures.is_splat(meta, g, b),
    ensures
        a == b,
{
    let pa = a.position_visibility.position->0;
    let pb = b.position_visibility.position->0;
    assert forall|k: int| 0 <= k < 3 implies pa@[k] == pb@[k] by {
        assert(pa[k] == pb[k]);
    }
    assert(pa@ =~= pb@);
    assert(pa =~= pb);
    let ra = a.rotation.rotation;
    let rb = b.rotation.rotation;
    assert forall|k: int| 0 <= k < 4 implies ra@[k] == rb@[k] by {
        assert(ra[k] == rb[k]);
    }
    assert(ra@ =~= rb@);
    assert(ra =~= rb);
    let sa = a.scale_opacity.log_scale->0;
    let sb = b.scale_opacity.log_scale->0;
    assert forall|k: int| 0 <= k < 3 implies sa@[k] == sb@[k] by {
        assert(sa[k] == sb[k]);
    }
    assert(sa@ =~= sb@);
    assert(sa =~= sb);
    let ha = a.spherical_harmonic.coefficients;
    let hb = b.spherical_harmonic.coefficients;
    assert forall|k: int| 0 <= k < SH_COEFF_COUNT implies ha@[k] == hb@[k] by {
        assert(ha[k] == hb[k]);
    }
    assert(ha@ =~= hb@);
    assert(ha =~= hb);
}

/// Decoding a range gives the same splats as decoding the whole unit and
/// keeping that range.
pub proof fn range_is_slice_of_whole(
    meta: SogMeta,
    textures: SogTextures,
    whole: Seq<Gaussian3d>,
    offset: int,
    part: Seq<Gaussian3d>,
)
    requires
        0 <= offset,
        offset + part.len() <= meta.count,
        whole.len() == meta.count,
        forall|g: int| 0 <= g < whole.len() ==> textures.is_splat(meta, g, #[trigger] whole[g]),
        forall|i: int|
            0 <= i < part.len() ==> textures.is_splat(meta, offset + i, #[trigger] part[i]),
    ensures
        part == whole.subrange(offset, offset + part.len()),
{
    assert forall|i: int| 0 <= i < part.len() implies part[i] == whole[offset + i] by {
        splats_are_determined(meta, textures, offset + i, part[i], whole[offset + i]);
    }
    assert(part =~= whole.subrange(offset, offset + part.len()));
}

/// Textures that loading accepted are large enough for every range that lies in
/// the unit.
pub proof fn loaded_textures_cover_every_range(
    meta: SogMeta,
    replies: Seq<Result<Seq<u8>, ReadProblem<Seq<char>>>>,
    textures: SogTextures,
    offset: int,
    count: int,
)
    requires
        meta.loads(replies, Ok(textures)),
        0 <= offset,
        0 <= count,
        offset + count <= meta.count,
    ensures
        textures.covers(meta, rows_read(offset, count)),
{
    assert(meta.roomy(replies, 0) && meta.roomy(replies, 1) && meta.roomy(replies, 2)
        && meta.roomy(replies, 3) && meta.roomy(replies, 4));
}

/// Loading depends on the answers alone: the same source, asked name by name,
/// gives the same textures or the same error, after the same number of
/// questions.
pub proof fn loading_is_determined(
    meta: SogMeta,
    source: spec_fn(Seq<char>) -> Result<Seq<u8>, ReadProblem<Seq<char>>>,
    first: Seq<Result<Seq<u8>, ReadProblem<Seq<char>>>>,
    a: Result<SogTextures, ReadError>,
    second: Seq<Result<Seq<u8>, ReadProblem<Seq<char>>>>,
    b: Result<SogTextures, ReadError>,
)
    requires
        first.len() <= meta.requested().len(),
        second.len() <= meta.requested().len(),
        forall|k: int|
            0 <= k < first.len() ==> #[trigger] first[k] == source(meta.requested()[k]),
        forall|k: int|
            0 <= k < second.len() ==> #[trigger] second[k] == source(meta.requested()[k]),
        meta.loads(first, a),
        meta.loads(second, b),
    ensures
        first == second,
        match (a, b) {
            (Ok(x), Ok(y)) => x.same_bytes(y),
            (Err(x), Err(y)) => x@ == y@,
            _ => false,
        },
{
    if meta.means.files@.len() >= 2 {
        lemma_stops_no_later(meta, first, a, second, b);
        lemma_stops_no_later(meta, second, b, first, a);
    }
    assert(first =~= second);
}

/// Loading that stops after some answers stops no later on any run that they
/// start.
proof fn lemma_stops_no_later(
    meta: SogMeta,
    first: Seq<Result<Seq<u8>, ReadProblem<Seq<char>>>>,
    a: Result<SogTextures, ReadError>,
    second: Seq<Result<Seq<u8>, ReadProblem<Seq<char>>>>,
    b: Result<SogTextures, ReadError>,
)
    requires
        first.len() <= meta.requested().len(),
        second.len() <= meta.requested().len(),
        meta.means.files@.len() >= 2,
        forall|k: int| 0 <= k < first.len() && k < second.len() ==> #[trigger] first[k] == second[k],
        meta.loads(first, a),
        meta.loads(second, b),
    ensures
        second.len() <= first.len(),
{
    let n = first.len() as int;
    if n < second.len() {
        assert forall|k: int| 0 <= k < n implies meta.image(first, k) == #[trigger] meta.image(
            second,
            k,
        ) by {
            assert(first[k] == second[k]);
        }
        if n > 0 {
            assert(meta.image(second, n - 1) is Ok);
            assert(meta.image(first, n - 1) is Ok);
        }
        if n == 5 {
            assert forall|k: int| 0 <= k < 5 implies #[trigger] meta.roomy(first, k) by {
                assert(meta.roomy(second, k));
                assert(meta.image(second, k) == meta.image(first, k));
            }
        }
    }
}

/// Everything that loading asks for is among the listed texture names, so that
/// whoever has read those files can answer every question.
pub proof fn requested_names_are_listed(meta: SogMeta, k: int)
    requires
        meta.lists_textures(),
        0 <= k < meta.requested().len(),
    ensures
        meta.listed().contains(meta.requested()[k]),
{
    let m = meta.means.files@.len() as int;
    let q = meta.quats.files@.len() as int;
    let s = meta.scales.files@.len() as int;
    let z = meta.sh0.files@.len() as int;
    let at = if k < 2 {
        k
    } else if k == 2 {
        m
    } else if k == 3 {
        m + q
    } else if k == 4 {
        m + q + s
    } else {
        m + q + s + z + (k - 5)
    };
    assert(meta.listed()[at] == meta.requested()[k]);
}

/// Positions come back: a unit that stores the low byte of a code in the first
/// positions texture and its high byte in the second decodes to that code, in
/// whatever range the splat is read.
pub proof fn positions_come_back(
    meta: SogMeta,
    textures: SogTextures,
    offset: usize,
    count: usize,
    part: Vec<Gaussian3d>,
    i: int,
    axis: int,
    code: u16,
)
    requires
        offset + count <= meta.count,
        range_decodes(meta, textures, offset, count, Ok(part)),
        0 <= i < count,
        0 <= axis < 3,
        textures.means_l@[4 * (offset + i) + axis] == code % 256,
        textures.means_u@[4 * (offset + i) + axis] == code / 256,
    ensures
        part@.len() == count,
        part@[i].position_visibility.position matches Some(position) && position@[axis] == code,
{
    assert(textures.is_splat(meta, offset + i, part@[i]));
    let position = part@[i].position_visibility.position->0;
    assert(position[axis] == code16(
        textures.means_l[4 * (offset + i) + axis],
        textures.means_u[4 * (offset + i) + axis],
    ));
}

/// Rotations come back: with an alpha byte of `252 + m`, component `m` is the one
/// left out, and the others are the first three bytes in order.
pub proof fn rotations_come_back(
    meta: SogMeta,
    textures: SogTextures,
    offset: usize,
    count: usize,
    part: Vec<Gaussian3d>,
    i: int,
    m: int,
)
    requires
        offset + count <= meta.count,
        range_decodes(meta, textures, offset, count, Ok(part)),
        0 <= i < count,
        0 <= m < 4,
    ensures
        ({
            let g = 4 * (offset + i);
            let rotation = part@[i].rotation.rotation@;
            &&& textures.quats@[g + 3] == 252 + m ==> rotation[m] is Largest && rotation.remove(m)
                == seq![
                RotationComponent::Packed(textures.quats@[g]),
                RotationComponent::Packed(textures.quats@[g + 1]),
                RotationComponent::Packed(textures.quats@[g + 2]),
            ]
            &&& textures.quats@[g + 3] < 252 ==> rotation == seq![
                RotationComponent::One,
                RotationComponent::Zero,
                RotationComponent::Zero,
                RotationComponent::Zero,
            ]
        }),
{
    let g = 4 * (offset + i);
    assert(textures.is_splat(meta, offset + i, part@[i]));
    let rotation = part@[i].rotation.rotation;
    assert forall|k: int| 0 <= k < 4 implies rotation@[k] == rotation_component(
        textures.quats[g],
        textures.quats[g + 1],
        textures.quats[g + 2],
        textures.quats[g + 3],
        k,
    ) by {
        assert(rotation[k] == rotation@[k]);
    }
    if textures.quats@[g + 3] == 252 + m {
        assert(rotation@.remove(m) =~= seq![
            RotationComponent::Packed(textures.quats@[g]),
            RotationComponent::Packed(textures.quats@[g + 1]),
            RotationComponent::Packed(textures.quats@[g + 2]),
        ]);
    }
    if textures.quats@[g + 3] < 252 {
        assert(rotation@ =~= seq![
            RotationComponent::One,
            RotationComponent::Zero,
            RotationComponent::Zero,
            RotationComponent::Zero,
        ]);
    }
}

/// Extents, opacities and colours come back: each byte stands for the entry of its
/// codebook, the fourth byte of the colour is the opacity, and a byte past the end
/// of a codebook stands for zero.
pub proof fn codes_stand_for_their_entries(
    meta: SogMeta,
    textures: SogTextures,
    offset: usize,
    count: usize,
    part: Vec<Gaussian3d>,
    i: int,
    k: int,
    extent: u8,
    colour: u8,
)
    requires
        offset + count <= meta.count,
        range_decodes(meta, textures, offset, count, Ok(part)),
        0 <= i < count,
        0 <= k < 3,
        textures.scales@[4 * (offset + i) + k] == extent,
        textures.sh0@[4 * (offset + i) + k] == colour,
    ensures
        part@[i].scale_opacity.log_scale matches Some(scale) && {
            &&& extent < meta.scales.codebook@.len() ==> scale@[k]
                == meta.scales.codebook@[extent as int]
            &&& extent >= meta.scales.codebook@.len() ==> scale@[k].bits == 0
        },
        part@[i].scale_opacity.opacity == textures.sh0@[4 * (offset + i) + 3],
        colour < meta.sh0.codebook@.len() ==> part@[i].spherical_harmonic.coefficients@[k]
            == meta.sh0.codebook@[colour as int],
        colour >= meta.sh0.codebook@.len() ==> part@[i].spherical_harmonic.coefficients@[k].bits
            == 0,
{
    assert(textures.is_splat(meta, offset + i, part@[i]));
    let scale = part@[i].scale_opacity.log_scale->0;
    assert(scale[k] == codebook_entry(meta.scales.codebook@, extent as int));
    assert(part@[i].spherical_harmonic.coefficients[k] == textures.harmonic(meta, offset + i, k));
}

/// A palette of one, two or three bands holds the coefficients that complete the
/// first to the square of one more than its bands; any other number of bands is
/// no palette.
pub proof fn palettes_complete_the_square(bands: int)
    ensures
        1 <= bands <= 3 ==> rest_coeffs(bands) + 1 == (bands + 1) * (bands + 1),
        !(1 <= bands <= 3) ==> rest_coeffs(bands) == 0,
{
    assert(2 * 2 == 4 && 3 * 3 == 9 && 4 * 4 == 16);
}

/// Higher bands come back: with 64 palette entries to a row of the texture and one
/// texel for each coefficient of an entry, a splat whose label is that of entry
/// `column` in row `row` has the colours of the entry's texels, coefficient by
/// coefficient. Labels past the palette, and coefficients that it does not have,
/// are zero.
pub proof fn palette_entries_come_back(
    meta: SogMeta,
    textures: SogTextures,
    offset: usize,
    count: usize,
    part: Vec<Gaussian3d>,
    i: int,
    row: int,
    column: int,
    coefficient: int,
    channel: int,
    byte: u8,
)
    requires
        offset + count <= meta.count,
        range_decodes(meta, textures, offset, count, Ok(part)),
        0 <= i < count,
        0 <= row,
        0 <= column < 64,
        1 <= coefficient < 16,
        0 <= channel < 3,
        meta.sh_n matches Some(sh_n) && 1 <= sh_n.bands <= 3,
        textures.sh_n_centroids is Some,
        textures.sh_n_labels is Some,
        (textures.sh_n_centroids->0).1 == 64 * rest_coeffs(meta.sh_n->0.bands as int),
        row < (textures.sh_n_centroids->0).0@.len() as int / 4 / (
        textures.sh_n_centroids->0).1 as int,
        textures.sh_n_labels->0@[4 * (offset + i)] + 256 * textures.sh_n_labels->0@[4 * (offset + i)
            + 1] == 64 * row + column,
        (textures.sh_n_centroids->0).0@[4 * ((64 * row + column) * rest_coeffs(
            meta.sh_n->0.bands as int,
        ) + (coefficient - 1)) + channel] == byte,
    ensures
        ({
            let sh_n = meta.sh_n->0;
            let value = part@[i].spherical_harmonic.coefficients@[3 * coefficient + channel];
            if coefficient <= rest_coeffs(sh_n.bands as int) && 64 * row + column < sh_n.count {
                &&& byte < sh_n.codebook@.len() ==> value == sh_n.codebook@[byte as int]
                &&& byte >= sh_n.codebook@.len() ==> value.bits == 0
            } else {
                value.bits == 0
            }
        }),
{
    let g = offset + i;
    let sh_n = meta.sh_n->0;
    let coeffs = rest_coeffs(sh_n.bands as int);
    let (rgba, width) = textures.sh_n_centroids->0;
    let at = 3 * coefficient + channel;
    assert(textures.is_splat(meta, g, part@[i]));
    assert(part@[i].spherical_harmonic.coefficients[at] == textures.harmonic(meta, g, at));
    assert(at / 3 == coefficient && at % 3 == channel);
    let label = textures.label(g);
    assert(label == 64 * row + column);
    assert(label / 64 == row && label % 64 == column);
    if coefficient <= coeffs {
        assert(column * coeffs + (coefficient - 1) < 64 * coeffs) by (nonlinear_arith)
            requires
                0 <= column < 64,
                1 <= coefficient <= coeffs,
        ;
        assert(row * width + (column * coeffs + (coefficient - 1)) == (64 * row + column) * coeffs
            + (coefficient - 1)) by (nonlinear_arith)
            requires
                width == 64 * coeffs,
        ;
        assert(textures.centroid_code(meta, label, coefficient - 1, channel) == byte);
    }
}

/// Without a palette only the first coefficient has a colour.
pub proof fn units_without_palette_have_one_coefficient(
    meta: SogMeta,
    textures: SogTextures,
    offset: usize,
    count: usize,
    part: Vec<Gaussian3d>,
    i: int,
    k: int,
)
    requires
        offset + count <= meta.count,
        range_decodes(meta, textures, offset, count, Ok(part)),
        0 <= i < count,
        3 <= k < SH_COEFF_COUNT,
        meta.sh_n is None || textures.sh_n_centroids is None,
    ensures
        part@[i].spherical_harmonic.coefficients@[k].bits == 0,
{
    assert(textures.is_splat(meta, offset + i, part@[i]));
    assert(part@[i].spherical_harmonic.coefficients[k] == textures.harmonic(meta, offset + i, k));
}

/// Any range can be read alone: it is refused exactly if it ends after the last
/// splat, and otherwise gives what reading from the first splat gives there.
pub proof fn ranges_are_read_alone(
    meta: SogMeta,
    textures: SogTextures,
    offset: usize,
    count: usize,
    r: Result<Vec<Gaussian3d>, ReadError>,
    whole: Vec<Gaussian3d>,
)
    requires
        range_decodes(meta, textures, offset, count, r),
        range_decodes(meta, textures, 0, meta.count, Ok(whole)),
    ensures
        r is Ok <==> offset + count <= meta.count,
        r matches Ok(part) ==> part@ == whole@.subrange(offset as int, offset + count),
        r is Err && offset + count <= usize::MAX ==> (r->Err_0@ matches
            ReadProblem::RangeOutOfBounds { offset: from, end, count: rows } && from == offset
            && end == offset + count && rows == meta.count),
{
    if let Ok(part) = r {
        assert forall|g: int| 0 <= g < whole@.len() implies textures.is_splat(
            meta,
            g,
            #[trigger] whole@[g],
        ) by {
            assert(textures.is_splat(meta, 0 + g, whole@[g]));
        }
        range_is_slice_of_whole(meta, textures, whole@, offset as int, part@);
    }
}

/// The bytes of the picture that a source has under a name.
pub open spec fn picture_in(
    source: spec_fn(Seq<char>) -> Result<Seq<u8>, ReadProblem<Seq<char>>>,
    name: Seq<char>,
) -> Option<Seq<u8>> {
    match source(name) {
        Ok(bytes) => match decoded(name, bytes) {
            Ok((rgba, _)) => Some(rgba),
            Err(_) => None,
        },
        Err(_) => None,
    }
}

/// Every texture is that of its attribute: low bytes of positions from the first
/// file listed for them, high bytes from the second, all others from the first
/// file of their attribute, and of a palette the entries from its first file and
/// the labels from its second. All of them reach to the last splat.
pub proof fn textures_are_those_of_their_files(
    meta: SogMeta,
    source: spec_fn(Seq<char>) -> Result<Seq<u8>, ReadProblem<Seq<char>>>,
    replies: Seq<Result<Seq<u8>, ReadProblem<Seq<char>>>>,
    textures: SogTextures,
)
    requires
        replies.len() <= meta.requested().len(),
        forall|k: int|
            0 <= k < replies.len() ==> #[trigger] replies[k] == source(meta.requested()[k]),
        meta.loads(replies, Ok(textures)),
    ensures
        meta.means.files@.len() >= 2,
        picture_in(source, meta.means.files@[0]@) == Some(textures.means_l@),
        picture_in(source, meta.means.files@[1]@) == Some(textures.means_u@),
        picture_in(source, meta.quats.files@[0]@) == Some(textures.quats@),
        picture_in(source, meta.scales.files@[0]@) == Some(textures.scales@),
        picture_in(source, meta.sh0.files@[0]@) == Some(textures.sh0@),
        textures.means_l@.len() >= 4 * meta.count,
        textures.means_u@.len() >= 4 * meta.count,
        textures.quats@.len() >= 4 * meta.count,
        textures.scales@.len() >= 4 * meta.count,
        textures.sh0@.len() >= 4 * meta.count,
        meta.sh_n matches Some(sh_n) && 1 <= sh_n.bands <= 3 ==> {
            &&& textures.sh_n_centroids matches Some((centroids, width)) && picture_in(
                source,
                meta.sh_n->0.files@[0]@,
            ) == Some(centroids@) && width == 64 * rest_coeffs(meta.sh_n->0.bands as int)
            &&& textures.sh_n_labels matches Some(labels) && picture_in(
                source,
                meta.sh_n->0.files@[1]@,
            ) == Some(labels@) && labels@.len() >= 4 * meta.count
        },
        !(meta.sh_n matches Some(sh_n) && 1 <= sh_n.bands <= 3) ==> textures.sh_n_centroids is None
            && textures.sh_n_labels is None,
{
    assert(meta.roomy(replies, 0) && meta.roomy(replies, 1) && meta.roomy(replies, 2)
        && meta.roomy(replies, 3) && meta.roomy(replies, 4));
    assert(meta.textures_from(replies, textures));
    assert(replies[0] == source(meta.requested()[0]));
    assert(replies[1] == source(meta.requested()[1]));
    assert(replies[2] == source(meta.requested()[2]));
    assert(replies[3] == source(meta.requested()[3]));
    assert(replies[4] == source(meta.requested()[4]));
    if meta.palette_coeffs() > 0 {
        assert(replies[5] == source(meta.requested()[5]));
        assert(replies[6] == source(meta.requested()[6]));
    }
}

/// A unit does not load without every texture that it asks for, each a picture
/// with a texel for every splat; the palette alone may have fewer.
pub proof fn units_need_every_texture(
    meta: SogMeta,
    source: spec_fn(Seq<char>) -> Result<Seq<u8>, ReadProblem<Seq<char>>>,
    replies: Seq<Result<Seq<u8>, ReadProblem<Seq<char>>>>,
    r: Result<SogTextures, ReadError>,
    k: int,
)
    requires
        replies.len() <= meta.requested().len(),
        forall|j: int|
            0 <= j < replies.len() ==> #[trigger] replies[j] == source(meta.requested()[j]),
        meta.loads(replies, r),
        0 <= k < meta.requested().len(),
    ensures
        picture_in(source, meta.requested()[k]) is None ==> r is Err,
        (picture_in(source, meta.requested()[k]) matches Some(rgba) && rgba.len() < 4 * meta.count)
            && k != 5 ==> r is Err,
{
    if r is Ok {
        assert(meta.textures_from(replies, r->Ok_0));
        assert(replies[k] == source(meta.requested()[k]));
        assert(meta.image(replies, k) is Ok);
        if k < 5 {
            assert(meta.roomy(replies, k));
        }
    }
}

/// A unit loads once its textures are there, each a picture with a texel for every
/// splat, and the palette's 64 entries wide.
pub proof fn units_with_every_texture_load(
    meta: SogMeta,
    source: spec_fn(Seq<char>) -> Result<Seq<u8>, ReadProblem<Seq<char>>>,
    replies: Seq<Result<Seq<u8>, ReadProblem<Seq<char>>>>,
    r: Result<SogTextures, ReadError>,
)
    requires
        replies.len() <= meta.requested().len(),
        forall|j: int|
            0 <= j < replies.len() ==> #[trigger] replies[j] == source(meta.requested()[j]),
        meta.loads(replies, r),
        meta.means.files@.len() >= 2,
        forall|j: int|
            0 <= j < meta.requested().len() ==> (source(#[trigger] meta.requested()[j]) is Ok
                && (decoded(meta.requested()[j], source(meta.requested()[j])->Ok_0) matches Ok((
                rgba,
                width,
            )) && rgba.len() >= 4 * meta.count && (j == 5 ==> width == 64 * rest_coeffs(
                meta.sh_n->0.bands as int,
            )))),
    ensures
        r is Ok,
{
    let n = replies.len() as int;
    assert forall|j: int| 0 <= j < n implies #[trigger] meta.roomy(replies, j) && meta.image(
        replies,
        j,
    ) == decoded(meta.requested()[j], source(meta.requested()[j])->Ok_0) by {
        assert(replies[j] == source(meta.requested()[j]));
    }
    if n > 0 {
        assert(meta.roomy(replies, n - 1));
    }
    if n == 7 {
        assert(meta.roomy(replies, 5) && meta.roomy(replies, 6));
    }
}

/// A unit without two files for its positions asks for nothing and does not load.
pub proof fn units_need_two_position_files(
    meta: SogMeta,
    replies: Seq<Result<Seq<u8>, ReadProblem<Seq<char>>>>,
    r: Result<SogTextures, ReadError>,
)
    requires
        meta.loads(replies, r),
        meta.means.files@.len() < 2,
    ensures
        replies.len() == 0,
        meta.requested().len() == 0,
        r is Err && r->Err_0@ is MeansFiles,
{
}

/// Only version 2 is read, and it is read as it was written.
pub proof fn only_version_two_is_read(parsed: Result<SogMeta, String>)
    ensures
        checked_meta(parsed) is Ok <==> parsed is Ok && parsed->Ok_0.version == 2,
        checked_meta(parsed) matches Ok(meta) ==> parsed == Ok::<SogMeta, String>(meta),
        parsed matches Err(reason) ==> (checked_meta(parsed) matches Err(
            ReadProblem::MetaParse { reason: words },
        ) && words == reason@),
        parsed matches Ok(meta) ==> meta.version != 2 ==> (checked_meta(parsed) matches Err(
            ReadProblem::MetaVersion { version },
        ) && version == meta.version),
{
}

/// The listed names are those of the attributes, and no others.
pub proof fn listed_names_are_those_of_the_attributes(meta: SogMeta, name: Seq<char>)
    ensures
        meta.listed().contains(name) <==> {
            ||| texts(meta.means.files@).contains(name)
            ||| texts(meta.quats.files@).contains(name)
            ||| texts(meta.scales.files@).contains(name)
            ||| texts(meta.sh0.files@).contains(name)
            ||| meta.sh_n is Some && texts(meta.sh_n->0.files@).contains(name)
        },
{
    let parts = seq![
        texts(meta.means.files@),
        texts(meta.quats.files@),
        texts(meta.scales.files@),
        texts(meta.sh0.files@),
        match meta.sh_n {
            Some(sh_n) => texts(sh_n.files@),
            None => Seq::empty(),
        },
    ];
    lemma_contains_joined(parts[0], parts[1], name);
    lemma_contains_joined(parts[0] + parts[1], parts[2], name);
    lemma_contains_joined(parts[0] + parts[1] + parts[2], parts[3], name);
    lemma_contains_joined(parts[0] + parts[1] + parts[2] + parts[3], parts[4], name);
}

/// What two lists hold together is what one of them holds.
proof fn lemma_contains_joined(a: Seq<Seq<char>>, b: Seq<Seq<char>>, x: Seq<char>)
    ensures
        (a + b).contains(x) <==> a.contains(x) || b.contains(x),
{
    let both = a + b;
    if a.contains(x) {
        let k = choose|k: int| 0 <= k < a.len() && a[k] == x;
        assert(both[k] == x);
    }
    if b.contains(x) {
        let k = choose|k: int| 0 <= k < b.len() && b[k] == x;
        assert(both[a.len() + k] == x);
    }
    if both.contains(x) {
        let k = choose|k: int| 0 <= k < both.len() && both[k] == x;
        if k < a.len() {
            assert(a[k] == x);
        } else {
            assert(b[k - a.len()] == x);
        }
    }
}

/// A whole unit is read row by row into the arrays of its cloud, with the bounds
/// that its positions are written in, and ends with invisible splats up to a
/// multiple of 32.
pub proof fn whole_units_are_read_row_by_row(
    meta: SogMeta,
    textures: SogTextures,
    cloud: PlanarGaussian3d,
    g: int,
    axis: int,
    code: u16,
)
    requires
        meta.is_whole(textures, cloud),
        0 <= g,
        0 <= axis < 3,
        textures.means_l@[4 * g + axis] == code % 256,
        textures.means_u@[4 * g + axis] == code / 256,
    ensures
        cloud.bounds.mins == meta.means.mins,
        cloud.bounds.maxs == meta.means.maxs,
        cloud.position_visibility@.len() % 32 == 0,
        meta.count <= cloud.position_visibility@.len() < meta.count + 32,
        g < meta.count ==> (cloud.position_visibility@[g].position matches Some(position)
            && position@[axis] == code),
        g < meta.count ==> textures.is_splat(meta, g, cloud.splat(g)),
        meta.count <= g < cloud.position_visibility@.len() ==> {
            &&& cloud.position_visibility@[g].position is None
            &&& cloud.scale_opacity@[g].opacity == 0
            &&& cloud.scale_opacity@[g].log_scale is None
        },
{
    let decoded = choose|decoded: Seq<Gaussian3d>| #[trigger]
        is_padded(decoded, cloud.splats()) && decoded.len() == meta.count && forall|g: int|
            0 <= g < meta.count ==> textures.is_splat(meta, g, #[trigger] decoded[g]);
    padding_fills_one_block(meta.count as int);
    if g < meta.count {
        assert(cloud.splats().subrange(0, meta.count as int)[g] == decoded[g]);
        assert(cloud.splats()[g] == cloud.splat(g));
        assert(textures.is_splat(meta, g, cloud.splat(g)));
        let position = cloud.splat(g).position_visibility.position->0;
        assert(position[axis] == code16(
            textures.means_l[4 * g + axis],
            textures.means_u[4 * g + axis],
        ));
    } else if g < cloud.position_visibility@.len() {
        assert(cloud.splats()[g] == cloud.splat(g));
        assert(cloud.splats()[g].is_padding());
    }
}

/// A unit is read from its files: where the first positions file has the low byte
/// of a code for a splat's axis and the second its high byte, the cloud that is
/// read has that code there.
pub proof fn units_are_read_from_their_files(
    meta: SogMeta,
    source: spec_fn(Seq<char>) -> Result<Seq<u8>, ReadProblem<Seq<char>>>,
    replies: Seq<Result<Seq<u8>, ReadProblem<Seq<char>>>>,
    cloud: PlanarGaussian3d,
    g: int,
    axis: int,
    code: u16,
)
    requires
        replies.len() <= meta.requested().len(),
        forall|k: int|
            0 <= k < replies.len() ==> #[trigger] replies[k] == source(meta.requested()[k]),
        meta.reads(replies, Ok(cloud)),
        0 <= g < meta.count,
        0 <= axis < 3,
        picture_in(source, meta.means.files@[0]@) matches Some(rgba) && rgba[4 * g + axis] == code
            % 256,
        picture_in(source, meta.means.files@[1]@) matches Some(rgba) && rgba[4 * g + axis] == code
            / 256,
    ensures
        g < cloud.position_visibility@.len(),
        cloud.position_visibility@[g].position matches Some(position) && position@[axis] == code,
        cloud.bounds.mins == meta.means.mins,
        cloud.bounds.maxs == meta.means.maxs,
{
    let t = choose|t: Result<SogTextures, ReadError>| #[trigger]
        meta.loads(replies, t) && match t {
            Ok(textures) => meta.is_whole(textures, cloud),
            Err(e) => false,
        };
    let textures = t->Ok_0;
    textures_are_those_of_their_files(meta, source, replies, textures);
    whole_units_are_read_row_by_row(meta, textures, cloud, g, axis, code);
}

/// A palette entry below the texture stands for the first entry of the codebook.
pub proof fn entries_below_the_palette_are_the_first_code(
    meta: SogMeta,
    textures: SogTextures,
    offset: usize,
    count: usize,
    part: Vec<Gaussian3d>,
    i: int,
    coefficient: int,
    channel: int,
)
    requires
        offset + count <= meta.count,
        range_decodes(meta, textures, offset, count, Ok(part)),
        0 <= i < count,
        0 <= channel < 3,
        meta.sh_n matches Some(sh_n) && 1 <= sh_n.bands <= 3 && sh_n.codebook@.len() > 0,
        1 <= coefficient <= rest_coeffs(meta.sh_n->0.bands as int),
        textures.sh_n_centroids is Some,
        textures.sh_n_labels is Some,
        ({
            let label = textures.sh_n_labels->0@[4 * (offset + i)] + 256
                * textures.sh_n_labels->0@[4 * (offset + i) + 1];
            &&& label < meta.sh_n->0.count
            &&& label / 64 >= (textures.sh_n_centroids->0).0@.len() as int / 4 / (
            textures.sh_n_centroids->0).1 as int
        }),
    ensures
        part@[i].spherical_harmonic.coefficients@[3 * coefficient + channel]
            == meta.sh_n->0.codebook@[0],
{
    let g = offset + i;
    let at = 3 * coefficient + channel;
    assert(textures.is_splat(meta, g, part@[i]));
    assert(part@[i].spherical_harmonic.coefficients[at] == textures.harmonic(meta, g, at));
    assert(at / 3 == coefficient && at % 3 == channel);
    assert(textures.centroid_code(meta, textures.label(g), coefficient - 1, channel) == 0);
}

/// The listed names come in the order of the attributes: positions, rotations,
/// extents, first colours, palette, each in the order of its own list.
pub proof fn listed_names_are_in_order(meta: SogMeta, k: int)
    requires
        0 <= k,
    ensures
        ({
            let means = meta.means.files@.len() as int;
            let quats = means + meta.quats.files@.len();
            let scales = quats + meta.scales.files@.len();
            let sh0 = scales + meta.sh0.files@.len();
            let all = meta.listed();
            &&& all.len() == sh0 + (match meta.sh_n {
                Some(sh_n) => sh_n.files@.len() as int,
                None => 0,
            })
            &&& k < means ==> all[k] == meta.means.files@[k]@
            &&& means <= k < quats ==> all[k] == meta.quats.files@[k - means]@
            &&& quats <= k < scales ==> all[k] == meta.scales.files@[k - quats]@
            &&& scales <= k < sh0 ==> all[k] == meta.sh0.files@[k - scales]@
            &&& sh0 <= k < all.len() ==> all[k] == meta.sh_n->0.files@[k - sh0]@
        }),
{
}

/// A refusal names what is wrong. A texture with too few texels is named, and the
/// first such one of the five that every unit has; a palette of the wrong width
/// comes with both widths and its bands.
pub proof fn refusals_name_the_texture(
    meta: SogMeta,
    source: spec_fn(Seq<char>) -> Result<Seq<u8>, ReadProblem<Seq<char>>>,
    replies: Seq<Result<Seq<u8>, ReadProblem<Seq<char>>>>,
    r: Result<SogTextures, ReadError>,
    k: int,
)
    requires
        replies.len() <= meta.requested().len(),
        forall|j: int|
            0 <= j < replies.len() ==> #[trigger] replies[j] == source(meta.requested()[j]),
        meta.loads(replies, r),
        meta.means.files@.len() >= 2,
        forall|j: int|
            0 <= j < meta.requested().len() ==> picture_in(
                source,
                #[trigger] meta.requested()[j],
            ) is Some,
    ensures
        0 <= k < 5 && picture_in(source, meta.requested()[k])->0.len() < 4 * meta.count && (
        forall|j: int|
            0 <= j < k ==> picture_in(source, #[trigger] meta.requested()[j])->0.len() >= 4
                * meta.count) ==> r is Err && r->Err_0@ == (ReadProblem::TextureTooSmall {
            name: meta.requested()[k],
        }),
        (forall|j: int|
            0 <= j < 5 ==> picture_in(source, #[trigger] meta.requested()[j])->0.len() >= 4
                * meta.count) && meta.palette_coeffs() > 0 && picture_in(
            source,
            meta.requested()[6],
        )->0.len() < 4 * meta.count ==> r is Err && r->Err_0@ is LabelsTooSmall,
        r is Err && r->Err_0@ is CentroidWidth ==> r->Err_0@->expected == 64 * rest_coeffs(
            meta.sh_n->0.bands as int,
        ) && r->Err_0@->bands == meta.sh_n->0.bands,
{
    let n = replies.len() as int;
    assert forall|j: int| 0 <= j < n implies (#[trigger] meta.image(replies, j)) is Ok && (
    meta.roomy(replies, j) <==> picture_in(source, meta.requested()[j])->0.len() >= 4
        * meta.count) by {
        assert(replies[j] == source(meta.requested()[j]));
        assert(picture_in(source, meta.requested()[j]) is Some);
    }
    if n > 0 {
        assert(meta.image(replies, n - 1) is Ok);
    }
    assert(n >= 5);
    assert(forall|j: int| 0 <= j < 5 ==> #[trigger] meta.image(replies, j) is Ok);
    if 0 <= k < 5 && picture_in(source, meta.requested()[k])->0.len() < 4 * meta.count && (forall|
        j: int,
    |
        0 <= j < k ==> picture_in(source, #[trigger] meta.requested()[j])->0.len() >= 4
            * meta.count) {
        assert(meta.image(replies, k) is Ok);
        assert(!meta.roomy(replies, k));
        let first = choose|first: int|
            0 <= first < 5 && !(#[trigger] meta.roomy(replies, first)) && (forall|j: int|
                0 <= j < first ==> #[trigger] meta.roomy(replies, j)) && r->Err_0@ == (
            ReadProblem::TextureTooSmall { name: meta.requested()[first] });
        if first < k {
            assert(meta.image(replies, first) is Ok);
            assert(picture_in(source, meta.requested()[first])->0.len() >= 4 * meta.count);
        }
        if k < first {
            assert(meta.roomy(replies, k));
        }
    }
    if (forall|j: int|
        0 <= j < 5 ==> picture_in(source, #[trigger] meta.requested()[j])->0.len() >= 4
            * meta.count) && meta.palette_coeffs() > 0 {
        assert forall|j: int| 0 <= j < 5 implies #[trigger] meta.roomy(replies, j) by {
            assert(meta.image(replies, j) is Ok);
            assert(picture_in(source, meta.requested()[j])->0.len() >= 4 * meta.count);
        }
        assert(n == 7);
        assert(meta.image(replies, 6) is Ok);
    }
}

} // verus!
