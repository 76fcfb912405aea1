//! Splats as the decoder hands them out.
//!
//! Positions, rotations, scales and opacities stay in their stored codes; the
//! floating-point expansion of a code is left to the host. A default splat is
//! padding: at the origin, invisible, without extent, opacity or colour.

use vstd::prelude::*;

use crate::float_bits::FloatBits;

verus! {

/// Colour channels of a spherical-harmonic coefficient.
pub const SH_CHANNELS: usize = 3;

/// Degree of the stored spherical harmonics.
pub const SH_DEGREE: usize = 3;

/// Stored values: `(SH_DEGREE + 1)^2` coefficients of `SH_CHANNELS` channels,
/// interleaved as `coefficient * SH_CHANNELS + channel`.
pub const SH_COEFF_COUNT: usize = 48;

/// Where a splat is. `Some` holds the 16-bit code of each axis between the
/// bounds of its unit and makes the splat visible; `None` is the invisible
/// origin.
#[derive(Clone, Copy, Debug)]
pub struct PositionVisibility {
    pub position: Option<[u16; 3]>,
}

/// Spherical-harmonic values, interleaved.
#[derive(Clone, Copy, Debug)]
pub struct SphericalHarmonics {
    pub coefficients: [FloatBits; SH_COEFF_COUNT],
}

/// One component of a stored quaternion.
#[derive(Clone, Copy, Debug, PartialEq, Eq, Structural)]
pub enum RotationComponent {
    /// exactly zero
    Zero,
    /// exactly one
    One,
    /// the byte `b` of a smallest-three code: `(b / 255 * 2 - 1) / sqrt(2)`
    Packed(u8),
    /// the non-negative component that completes the others to a unit quaternion
    Largest,
}

/// A quaternion in the order `[w, x, y, z]`.
#[derive(Clone, Copy, Debug)]
pub struct Rotation {
    pub rotation: [RotationComponent; 4],
}

/// Extent and opacity. `Some` holds the logarithm of the extent along each
/// axis, `None` is no extent; opacity is in steps of 1/255.
#[derive(Clone, Copy, Debug)]
pub struct ScaleOpacity {
    pub log_scale: Option<[FloatBits; 3]>,
    pub opacity: u8,
}

/// One splat, all its attributes side by side.
#[derive(Clone, Copy, Debug)]
pub struct Gaussian3d {
    pub position_visibility: PositionVisibility,
    pub spherical_harmonic: SphericalHarmonics,
    pub rotation: Rotation,
    pub scale_opacity: ScaleOpacity,
}

impl ScaleOpacity {
    /// Renders nothing: no extent, no opacity.
    pub open spec fn is_hidden(self) -> bool {
        self.log_scale is None && self.opacity == 0
    }

    /// The value that renders nothing.
    pub fn hidden() -> (r: ScaleOpacity)
        ensures
            r.is_hidden(),
    {
        ScaleOpacity { log_scale: None, opacity: 0 }
    }
}

impl SphericalHarmonics {
    /// All coefficients zero.
    pub fn zero() -> (r: SphericalHarmonics)
        ensures
            forall|k: int| 0 <= k < SH_COEFF_COUNT ==> #[trigger] r.coefficients[k] == (FloatBits {
                bits: 0,
            }),
    {
        SphericalHarmonics { coefficients: [FloatBits { bits: 0 };SH_COEFF_COUNT] }
    }
}

impl Gaussian3d {
    /// The default splat, used as padding.
    pub open spec fn is_padding(self) -> bool {
        &&& self.position_visibility.position is None
        &&& forall|k: int|
            0 <= k < SH_COEFF_COUNT ==> #[trigger] self.spherical_harmonic.coefficients[k] == (
            FloatBits { bits: 0 })
        &&& forall|k: int|
            0 <= k < 4 ==> #[trigger] self.rotation.rotation[k] == RotationComponent::Zero
        &&& self.scale_opacity.is_hidden()
    }
}

impl Default for Gaussian3d {
    fn default() -> (r: Gaussian3d)
        ensures
            r.is_padding(),
    {
        Gaussian3d {
            position_visibility: PositionVisibility { position: None },
            spherical_harmonic: SphericalHarmonics::zero(),
            rotation: Rotation {
                rotation: [
                    RotationComponent::Zero,
                    RotationComponent::Zero,
                    RotationComponent::Zero,
                    RotationComponent::Zero,
                ],
            },
            scale_opacity: ScaleOpacity::hidden(),
        }
    }
}

/// The box that a unit's position codes divide.
#[derive(Clone, Copy, Debug)]
pub struct PositionBounds {
    pub mins: [FloatBits; 3],
    pub maxs: [FloatBits; 3],
}

/// A cloud with one array per attribute.
#[derive(Clone, Debug)]
pub struct PlanarGaussian3d {
    pub bounds: PositionBounds,
    pub position_visibility: Vec<PositionVisibility>,
    pub spherical_harmonic: Vec<SphericalHarmonics>,
    pub rotation: Vec<Rotation>,
    pub scale_opacity: Vec<ScaleOpacity>,
}

impl PlanarGaussian3d {
    /// The arrays have the same length.
    pub open spec fn wf(self) -> bool {
        &&& self.spherical_harmonic@.len() == self.position_visibility@.len()
        &&& self.rotation@.len() == self.position_visibility@.len()
        &&& self.scale_opacity@.len() == self.position_visibility@.len()
    }

    /// Number of splats.
    pub open spec fn spec_len(self) -> nat {
        self.position_visibility@.len()
    }

    /// Splat `g`.
    pub open spec fn splat(self, g: int) -> Gaussian3d {
        Gaussian3d {
            position_visibility: self.position_visibility[g],
            spherical_harmonic: self.spherical_harmonic[g],
            rotation: self.rotation[g],
            scale_opacity: self.scale_opacity[g],
        }
    }

    /// The splats in order.
    pub open spec fn splats(self) -> Seq<Gaussian3d> {
        Seq::new(self.spec_len(), |g: int| self.splat(g))
    }

    /// Number of splats.
    pub fn len(&self) -> (r: usize)
        ensures
            r == self.spec_len(),
    {
        self.position_visibility.len()
    }

    /// Whether there are no splats.
    pub fn is_empty(&self) -> (r: bool)
        ensures
            r == (self.spec_len() == 0),
    {
        self.position_visibility.len() == 0
    }

    /// Whether the cloud is these splats in these bounds, split into their attributes.
    pub open spec fn is_split(self, bounds: PositionBounds, gaussians: Seq<Gaussian3d>) -> bool {
        &&& self.wf()
        &&& self.bounds == bounds
        &&& self.splats() == gaussians
    }

    /// Splits splats into their attributes.
    pub fn from_interleaved(bounds: PositionBounds, gaussians: Vec<Gaussian3d>) -> (r: Self)
        ensures
            r.is_split(bounds, gaussians@),
    {
        let mut cloud = PlanarGaussian3d {
            bounds,
            position_visibility: Vec::new(),
            spherical_harmonic: Vec::new(),
            rotation: Vec::new(),
            scale_opacity: Vec::new(),
        };
        let mut g: usize = 0;
        while g < gaussians.len()
            invariant
                g <= gaussians@.len(),
                cloud.wf(),
                cloud.bounds == bounds,
                cloud.spec_len() == g,
                forall|i: int| 0 <= i < g ==> #[trigger] cloud.splat(i) == gaussians@[i],
            decreases gaussians@.len() - g,
        {
            let ghost before = cloud;
            let gaussian = gaussians[g];
            cloud.position_visibility.push(gaussian.position_visibility);
            cloud.spherical_harmonic.push(gaussian.spherical_harmonic);
            cloud.rotation.push(gaussian.rotation);
            cloud.scale_opacity.push(gaussian.scale_opacity);
            assert forall|i: int| 0 <= i < g + 1 implies #[trigger] cloud.splat(i)
                == gaussians@[i] by {
                if i < g {
                    assert(before.splat(i) == gaussians@[i]);
                }
            }
            g = g + 1;
        }
        assert(cloud.splats() =~= gaussians@);
        cloud
    }
}

/// Splats are sorted in blocks of this many.
pub const SORT_BLOCK: usize = 32;

/// The smallest multiple of the block size that is not below `n`.
pub open spec fn padded_len(n: int) -> int {
    n + (SORT_BLOCK - n % SORT_BLOCK as int) % SORT_BLOCK as int
}

/// The smallest multiple of the block size that is not below `n`, if it fits.
pub fn padded_count(n: usize) -> (r: Option<usize>)
    ensures
        r is Some <==> padded_len(n as int) <= usize::MAX,
        r matches Some(m) ==> m == padded_len(n as int),
{
    n.checked_add((SORT_BLOCK - n % SORT_BLOCK) % SORT_BLOCK)
}

/// Whether `padded` is `gaussians` followed by as much padding as a full block
/// needs.
pub open spec fn is_padded(gaussians: Seq<Gaussian3d>, padded: Seq<Gaussian3d>) -> bool {
    &&& padded.len() == padded_len(gaussians.len() as int)
    &&& padded.subrange(0, gaussians.len() as int) == gaussians
    &&& forall|i: int| gaussians.len() <= i < padded.len() ==> (#[trigger] padded[i]).is_padding()
}

/// Appends default splats up to a multiple of 32.
pub fn pad_to_multiple_of_32(gaussians: Vec<Gaussian3d>) -> (r: Vec<Gaussian3d>)
    ensures
        is_padded(gaussians@, r@),
{
    let mut padded = gaussians;
    let pad: usize = (SORT_BLOCK - padded.len() % SORT_BLOCK) % SORT_BLOCK;
    let mut i: usize = 0;
    while i < pad
        invariant
            i <= pad,
            padded@.len() == gaussians@.len() + i,
            padded@.subrange(0, gaussians@.len() as int) == gaussians@,
            forall|k: int|
                gaussians@.len() <= k < padded@.len() ==> (#[trigger] padded@[k]).is_padding(),
        decreases pad - i,
    {
        padded.push(Gaussian3d::default());
        assert(padded@.subrange(0, gaussians@.len() as int) =~= gaussians@);
        i = i + 1;
    }
    padded
}

/// Padding fills the last block and adds no more: the padded length is a
/// multiple of 32, less than 32 above the count, and stays when padded again.
pub proof fn padding_fills_one_block(n: int)
    requires
        n >= 0,
    ensures
        padded_len(n) % SORT_BLOCK as int == 0,
        n <= padded_len(n) < n + SORT_BLOCK,
        padded_len(padded_len(n)) == padded_len(n),
{
}

/// Row `g` of every attribute's array belongs to splat `g`.
pub proof fn arrays_are_columns_of_splats(cloud: PlanarGaussian3d, g: int)
    requires
        cloud.wf(),
        0 <= g < cloud.position_visibility@.len(),
    ensures
        cloud.splats().len() == cloud.position_visibility@.len(),
        cloud.splats()[g].position_visibility == cloud.position_visibility@[g],
        cloud.splats()[g].spherical_harmonic == cloud.spherical_harmonic@[g],
        cloud.splats()[g].rotation == cloud.rotation@[g],
        cloud.splats()[g].scale_opacity == cloud.scale_opacity@[g],
{
}

/// Padding changes no splat and shows none: the splats stay in their places, their
/// number grows to the next multiple of 32, and what is added is invisible, at
/// the origin, without extent, opacity or colour.
pub proof fn padding_shows_nothing(gaussians: Seq<Gaussian3d>, padded: Seq<Gaussian3d>, i: int)
    requires
        is_padded(gaussians, padded),
    ensures
        padded.len() % 32 == 0,
        gaussians.len() <= padded.len() < gaussians.len() + 32,
        0 <= i < gaussians.len() ==> padded[i] == gaussians[i],
        gaussians.len() <= i < padded.len() ==> {
            &&& padded[i].position_visibility.position is None
            &&& padded[i].scale_opacity.log_scale is None
            &&& padded[i].scale_opacity.opacity == 0
            &&& forall|k: int|
                0 <= k < 48 ==> (#[trigger] padded[i].spherical_harmonic.coefficients@[k]).bits == 0
            &&& forall|k: int|
                0 <= k < 4 ==> (#[trigger] padded[i].rotation.rotation@[k]) is Zero
        },
{
    if 0 <= i < gaussians.len() {
        assert(padded.subrange(0, gaussians.len() as int)[i] == padded[i]);
    }
    if gaussians.len() <= i < padded.len() {
        assert(padded[i].is_padding());
        assert forall|k: int| 0 <= k < 48 implies (
        #[trigger] padded[i].spherical_harmonic.coefficients@[k]).bits == 0 by {
            assert(padded[i].spherical_harmonic.coefficients[k] == FloatBits { bits: 0 });
        }
        assert forall|k: int| 0 <= k < 4 implies (
        #[trigger] padded[i].rotation.rotation@[k]) is Zero by {
            assert(padded[i].rotation.rotation[k] == RotationComponent::Zero);
        }
    }
}

/// Splitting splats loses nothing: every array is as long as the list, and its row
/// `g` is the attribute of splat `g`.
pub proof fn splitting_keeps_every_splat(
    cloud: PlanarGaussian3d,
    bounds: PositionBounds,
    gaussians: Seq<Gaussian3d>,
    g: int,
)
    requires
        cloud.is_split(bounds, gaussians),
        0 <= g < gaussians.len(),
    ensures
        cloud.bounds.mins == bounds.mins,
        cloud.bounds.maxs == bounds.maxs,
        cloud.position_visibility@.len() == gaussians.len(),
        cloud.spherical_harmonic@.len() == gaussians.len(),
        cloud.rotation@.len() == gaussians.len(),
        cloud.scale_opacity@.len() == gaussians.len(),
        cloud.position_visibility@[g] == gaussians[g].position_visibility,
        cloud.spherical_harmonic@[g] == gaussians[g].spherical_harmonic,
        cloud.rotation@[g] == gaussians[g].rotation,
        cloud.scale_opacity@[g] == gaussians[g].scale_opacity,
{
    assert(cloud.splats()[g] == cloud.splat(g));
}

} // verus!
