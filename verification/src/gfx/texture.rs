//! Pixels of a texture, ready to be uploaded.

use vstd::prelude::*;

verus! {

/// Luma up to which a pixel is keyed out.
pub const LUMA_KEY_LOW: u32 = 8;

/// Luma from which on a pixel is opaque.
pub const LUMA_KEY_HIGH: u32 = 16;

/// Tightly packed RGBA pixels, rows from the top.
pub struct Texture {
    pub width: u32,
    pub height: u32,
    pub rgba: Vec<u8>,
}

/// Why there is no texture.
#[derive(Clone, Copy, Debug, PartialEq, Eq, Structural)]
pub enum TextureError {
    /// The number of bytes does not belong to the size.
    WrongLength,
    /// The image could not be decoded.
    Undecodable,
}

/// The bytes of a texture of the given size.
pub open spec fn byte_count(width: u32, height: u32) -> int {
    width * height * 4
}

/// An error of the image decoder.
#[verifier::external_type_specification]
#[verifier::external_body]
pub struct ExImageError(image::ImageError);

/// A decoded image.
pub struct DecodedImage {
    pub width: u32,
    pub height: u32,
    pub rgba: Vec<u8>,
}

/// `image::load_from_memory`, with the image converted to 8-bit RGBA, may give
/// this outcome for these bytes: width, height and pixels, or none if it fails.
/// Several outcomes may be possible for the same bytes.
pub uninterp spec fn may_decode_to(
    bytes: Seq<u8>,
    outcome: Option<(u32, u32, Seq<u8>)>,
) -> bool;

/// What the decoder answered: width, height and pixels, or none if it failed.
pub open spec fn outcome_of(decoded: Result<DecodedImage, image::ImageError>) -> Option<
    (u32, u32, Seq<u8>),
> {
    match decoded {
        Ok(d) => Some((d.width, d.height, d.rgba@)),
        Err(_) => None,
    }
}

/// Calls `image::load_from_memory` and converts the image to 8-bit RGBA. The
/// outcome is one that the call may give for these bytes, and an image buffer
/// holds at least the bytes of its pixels. It is left unsaid which outcome it
/// is: the decoders take different code paths on different processors, and
/// programs may register further ones.
#[verifier::external_body]
fn decode_rgba(bytes: &[u8]) -> (decoded: Result<DecodedImage, image::ImageError>)
    ensures
        may_decode_to(bytes@, outcome_of(decoded)),
        decoded matches Ok(d) ==> d.rgba@.len() >= byte_count(d.width, d.height),
{
    let img = image::load_from_memory(bytes)?.to_rgba8();
    let (width, height) = (img.width(), img.height());
    Ok(DecodedImage { width, height, rgba: img.into_raw() })
}

/// Brightness of a pixel, 0 to 255.
pub open spec fn luma(r: u8, g: u8, b: u8) -> int {
    (299 * r + 587 * g + 114 * b) / 1000
}

/// The alpha that a brightness is keyed to: transparent when dark, opaque when
/// light, and a ramp in between.
pub open spec fn keyed_alpha(luma: int) -> int {
    if luma <= LUMA_KEY_LOW {
        0
    } else if luma >= LUMA_KEY_HIGH {
        255
    } else {
        (luma - LUMA_KEY_LOW) * 255 / (LUMA_KEY_HIGH - LUMA_KEY_LOW)
    }
}

/// The pixel that begins at byte `at`.
pub open spec fn luma_at(rgba: Seq<u8>, at: int) -> int {
    luma(rgba[at], rgba[at + 1], rgba[at + 2])
}

/// The bytes with the alpha of every whole pixel keyed by its brightness.
pub open spec fn luma_keyed(rgba: Seq<u8>) -> Seq<u8> {
    Seq::new(
        rgba.len(),
        |i: int|
            if i % 4 == 3 {
                keyed_alpha(luma_at(rgba, i - 3)) as u8
            } else {
                rgba[i]
            },
    )
}

/// How many of the first `pixels` pixels are keyed out.
pub open spec fn transparent_count(rgba: Seq<u8>, pixels: nat) -> nat
    decreases pixels,
{
    if pixels == 0 {
        0
    } else {
        transparent_count(rgba, (pixels - 1) as nat) + if luma_at(rgba, 4 * (pixels - 1))
            <= LUMA_KEY_LOW {
            1nat
        } else {
            0nat
        }
    }
}

/// How many of the first `pixels` pixels lie on the ramp.
pub open spec fn ramp_count(rgba: Seq<u8>, pixels: nat) -> nat
    decreases pixels,
{
    if pixels == 0 {
        0
    } else {
        ramp_count(rgba, (pixels - 1) as nat) + if LUMA_KEY_LOW < luma_at(rgba, 4 * (pixels - 1))
            < LUMA_KEY_HIGH {
            1nat
        } else {
            0nat
        }
    }
}

/// What keying did.
#[derive(Clone, Copy, Debug, PartialEq, Eq, Structural)]
pub struct KeyCounts {
    pub transparent: usize,
    pub ramp: usize,
}

/// Keys the alpha of every pixel by its brightness. What alpha there was is
/// lost.
pub fn apply_luma_key(rgba: &mut Vec<u8>) -> (counts: KeyCounts)
    ensures
        final(rgba)@ == luma_keyed(old(rgba)@),
        counts.transparent == transparent_count(old(rgba)@, old(rgba)@.len() / 4),
        counts.ramp == ramp_count(old(rgba)@, old(rgba)@.len() / 4),
{
    let ghost before = rgba@;
    let len: usize = rgba.len();
    let mut transparent: usize = 0;
    let mut ramp: usize = 0;
    let mut pixel: usize = 0;
    while pixel < len / 4
        invariant
            len == before.len(),
            rgba@.len() == len,
            pixel <= len / 4,
            forall|i: int|
                0 <= i < len ==> #[trigger] rgba@[i] == if i < 4 * pixel {
                    luma_keyed(before)[i]
                } else {
                    before[i]
                },
            transparent == transparent_count(before, pixel as nat),
            ramp == ramp_count(before, pixel as nat),
            transparent <= pixel,
            ramp <= pixel,
        decreases len / 4 - pixel,
    {
        let at: usize = 4 * pixel;
        let l: u32 = (299 * (rgba[at] as u32) + 587 * (rgba[at + 1] as u32) + 114 * (rgba[at
            + 2] as u32)) / 1000;
        assert(l == luma_at(before, at as int));
        assert(LUMA_KEY_LOW < l < LUMA_KEY_HIGH ==> (l - LUMA_KEY_LOW) * 255 / (LUMA_KEY_HIGH
            - LUMA_KEY_LOW) <= 255);
        let alpha: u8 = if l <= LUMA_KEY_LOW {
            transparent += 1;
            0
        } else if l >= LUMA_KEY_HIGH {
            255
        } else {
            ramp += 1;
            ((l - LUMA_KEY_LOW) * 255 / (LUMA_KEY_HIGH - LUMA_KEY_LOW)) as u8
        };
        assert(alpha == keyed_alpha(luma_at(before, at as int)));
        rgba.set(at + 3, alpha);
        pixel += 1;
    }
    assert(rgba@ =~= luma_keyed(before));
    KeyCounts { transparent, ramp }
}

impl Texture {
    /// The bytes belong to the size.
    pub open spec fn wf(&self) -> bool {
        self.rgba@.len() == byte_count(self.width, self.height)
    }

    /// A texture from tightly packed RGBA bytes.
    pub fn from_rgba(width: u32, height: u32, rgba: Vec<u8>) -> (texture: Result<
        Self,
        TextureError,
    >)
        ensures
            match texture {
                Ok(t) => t.wf() && t.width == width && t.height == height && t.rgba@ == rgba@,
                Err(e) => e == TextureError::WrongLength && rgba@.len() != byte_count(
                    width,
                    height,
                ),
            },
    {
        let expected: u128 = texture_bytes(width, height);
        if rgba.len() as u128 != expected {
            return Err(TextureError::WrongLength);
        }
        Ok(Texture { width, height, rgba })
    }

    /// The texture is what is made of an answer of the decoder.
    pub open spec fn made_of(
        texture: Result<Self, TextureError>,
        outcome: Option<(u32, u32, Seq<u8>)>,
    ) -> bool {
        match outcome {
            Some((width, height, rgba)) => match texture {
                Ok(t) => t.wf() && t.width == width && t.height == height && t.rgba@ == rgba,
                Err(e) => e == TextureError::WrongLength && rgba.len() != byte_count(width, height),
            },
            None => texture matches Err(e) && e == TextureError::Undecodable,
        }
    }

    /// A texture from what the decoder gave.
    pub fn from_decoded(decoded: Result<DecodedImage, image::ImageError>) -> (texture: Result<
        Self,
        TextureError,
    >)
        ensures
            Self::made_of(texture, outcome_of(decoded)),
    {
        match decoded {
            Ok(d) => Self::from_rgba(d.width, d.height, d.rgba),
            Err(_) => Err(TextureError::Undecodable),
        }
    }

    /// A texture from the bytes of a PNG or JPEG file.
    ///
    /// Which of the outcomes that are possible for the bytes it is made of is up
    /// to the decoder.
    pub fn from_png_bytes(bytes: &[u8]) -> (texture: Result<Self, TextureError>)
        ensures
            exists|outcome: Option<(u32, u32, Seq<u8>)>| #[trigger]
                may_decode_to(bytes@, outcome) && Self::made_of(texture, outcome),
    {
        let decoded: Result<DecodedImage, image::ImageError> = decode_rgba(bytes);
        let ghost outcome = outcome_of(decoded);
        let texture: Result<Self, TextureError> = Self::from_decoded(decoded);
        assert(may_decode_to(bytes@, outcome) && Self::made_of(texture, outcome));
        texture
    }

    /// A texture from decoded pixels, dark ones keyed out.
    pub fn from_image_with_luma_key(width: u32, height: u32, rgba: Vec<u8>) -> (keyed: (
        KeyCounts,
        Result<Self, TextureError>,
    ))
        ensures
            keyed.0.transparent == transparent_count(rgba@, rgba@.len() / 4),
            keyed.0.ramp == ramp_count(rgba@, rgba@.len() / 4),
            match keyed.1 {
                Ok(t) => t.wf() && t.width == width && t.height == height && t.rgba@
                    == luma_keyed(rgba@),
                Err(e) => e == TextureError::WrongLength && rgba@.len() != byte_count(
                    width,
                    height,
                ),
            },
    {
        let mut pixels: Vec<u8> = rgba;
        let counts: KeyCounts = apply_luma_key(&mut pixels);
        (counts, Self::from_rgba(width, height, pixels))
    }
}

fn texture_bytes(width: u32, height: u32) -> (bytes: u128)
    ensures
        bytes == byte_count(width, height),
{
    assert(width * height <= 0xffff_ffff * 0xffff_ffff) by (nonlinear_arith)
        requires
            width <= 0xffff_ffff,
            height <= 0xffff_ffff,
    ;
    (width as u128) * (height as u128) * 4
}

/// Keying changes nothing but alpha, and keying again changes nothing.
pub proof fn law_keying_is_idempotent(rgba: Seq<u8>)
    ensures
        luma_keyed(luma_keyed(rgba)) == luma_keyed(rgba),
        forall|i: int|
            0 <= i < rgba.len() && i % 4 != 3 ==> #[trigger] luma_keyed(rgba)[i] == rgba[i],
{
    let once = luma_keyed(rgba);
    assert forall|i: int| 0 <= i < rgba.len() implies #[trigger] luma_keyed(once)[i] == once[i] by {
        if i % 4 == 3 {
            assert((i - 3) % 4 == 0 && (i - 2) % 4 == 1 && (i - 1) % 4 == 2);
            assert(luma_at(once, i - 3) == luma_at(rgba, i - 3));
        }
    }
    assert(luma_keyed(once) =~= once);
}

/// A brighter pixel is never more transparent; black is invisible, white is
/// opaque.
pub proof fn law_keyed_alpha_is_monotone(a: int, b: int)
    requires
        0 <= a <= b <= 255,
    ensures
        0 <= keyed_alpha(a) <= keyed_alpha(b) <= 255,
        keyed_alpha(luma(0, 0, 0)) == 0,
        keyed_alpha(luma(255, 255, 255)) == 255,
{
}

/// The brightness weighs the three channels with 299, 587 and 114 thousandths,
/// rounded down, whatever the pixel: a single channel counts with its own weight
/// and no other.
pub proof fn law_luma_weighs_channels(r: u8, g: u8, b: u8)
    ensures
        1000 * luma(r, g, b) <= 299 * r + 587 * g + 114 * b < 1000 * (luma(r, g, b) + 1),
        luma(r, 0, 0) == 299 * r / 1000,
        luma(0, g, 0) == 587 * g / 1000,
        luma(0, 0, b) == 114 * b / 1000,
        0 <= luma(r, g, b) <= 255,
{
}

/// Gray is as bright as each of its channels, and making a channel brighter never
/// makes a pixel darker.
pub proof fn law_luma_follows_channels(r: u8, g: u8, b: u8, r2: u8, g2: u8, b2: u8)
    requires
        r <= r2,
        g <= g2,
        b <= b2,
    ensures
        luma(g, g, g) == g,
        luma(r, g, b) <= luma(r2, g2, b2),
        // Steps of a channel are worth 299, 587 and 114 thousandths.
        r2 >= r + 4 ==> luma(r2, g, b) > luma(r, g, b),
        g2 >= g + 2 ==> luma(r, g2, b) > luma(r, g, b),
        b2 >= b + 9 ==> luma(r, g, b2) > luma(r, g, b),
{
}

/// What keying does to pixel `p`: the colour stays, and the alpha goes by the
/// weighed colour. Below nine it is transparent, from sixteen on it is opaque, and
/// in between the alpha rises by 255 eighths per step, rounded down.
pub proof fn law_pixel_is_keyed_by_its_colour(rgba: Seq<u8>, p: int)
    requires
        0 <= p,
        4 * p + 3 < rgba.len(),
    ensures
        ({
            let keyed = luma_keyed(rgba);
            let weighed = 299 * rgba[4 * p] + 587 * rgba[4 * p + 1] + 114 * rgba[4 * p + 2];
            let alpha = keyed[4 * p + 3];
            &&& keyed.len() == rgba.len()
            &&& keyed[4 * p] == rgba[4 * p]
            &&& keyed[4 * p + 1] == rgba[4 * p + 1]
            &&& keyed[4 * p + 2] == rgba[4 * p + 2]
            &&& alpha == 0 <==> weighed < 9000
            &&& alpha == 255 <==> weighed >= 16000
            &&& 9000 <= weighed < 16000 ==> 8 * alpha <= 255 * (weighed / 1000 - 8) < 8 * (alpha
                + 1)
        }),
{
}

/// A pixel with one bright channel is opaque, whichever channel it is.
pub proof fn law_bright_channel_is_opaque(rgba: Seq<u8>, p: int)
    requires
        0 <= p,
        4 * p + 3 < rgba.len(),
        rgba[4 * p] >= 54 || rgba[4 * p + 1] >= 28 || rgba[4 * p + 2] >= 141,
    ensures
        luma_keyed(rgba)[4 * p + 3] == 255,
{
    law_pixel_is_keyed_by_its_colour(rgba, p);
}

/// Bytes behind the last whole pixel stay as they are.
pub proof fn law_keying_leaves_partial_pixel(rgba: Seq<u8>, i: int)
    requires
        4 * (rgba.len() as int / 4) <= i < rgba.len(),
    ensures
        luma_keyed(rgba)[i] == rgba[i],
{
}

/// The alpha bytes of the first `pixels` pixels.
pub open spec fn alphas(rgba: Seq<u8>, pixels: nat) -> Seq<u8> {
    Seq::new(pixels, |p: int| rgba[4 * p + 3])
}

/// The counts are those of the keyed picture: transparent pixels are those of
/// alpha 0, ramp pixels those that are neither transparent nor opaque.
pub proof fn law_key_counts_are_of_the_picture(rgba: Seq<u8>, pixels: nat)
    requires
        4 * pixels <= rgba.len(),
    ensures
        transparent_count(rgba, pixels) == alphas(luma_keyed(rgba), pixels).filter(
            |alpha: u8| alpha == 0,
        ).len(),
        ramp_count(rgba, pixels) == alphas(luma_keyed(rgba), pixels).filter(
            |alpha: u8| 0 < alpha < 255,
        ).len(),
    decreases pixels,
{
    reveal(Seq::filter);
    if pixels > 0 {
        let p = pixels - 1;
        law_key_counts_are_of_the_picture(rgba, p as nat);
        assert(alphas(luma_keyed(rgba), pixels).drop_last() =~= alphas(
            luma_keyed(rgba),
            p as nat,
        ));
        law_pixel_is_keyed_by_its_colour(rgba, p);
        assert(alphas(luma_keyed(rgba), pixels).last() == luma_keyed(rgba)[4 * p + 3]);
        let l = luma_at(rgba, 4 * p);
        law_luma_weighs_channels(rgba[4 * p], rgba[4 * p + 1], rgba[4 * p + 2]);
    }
}

/// A texture of `width` by `height` pixels has four bytes per pixel.
pub proof fn law_texture_has_four_bytes_per_pixel(width: u32, height: u32)
    ensures
        byte_count(width, height) == 4 * (width * height),
        height < u32::MAX ==> byte_count(width, (height + 1) as u32) == byte_count(width, height)
            + 4 * width,
{
    assert(width * (height + 1) == width * height + width) by (nonlinear_arith);
}

/// A decoded picture becomes a texture of the same size and bytes exactly if there
/// are four bytes per pixel; each of the two failures has its own error.
pub proof fn law_decoded_picture_is_kept(
    texture: Result<Texture, TextureError>,
    width: u32,
    height: u32,
    rgba: Seq<u8>,
)
    ensures
        Texture::made_of(texture, Some((width, height, rgba))) && rgba.len() == 4 * (width
            * height) ==> (texture matches Ok(t) && t.width == width && t.height == height
            && t.rgba@ == rgba),
        Texture::made_of(texture, Some((width, height, rgba))) && rgba.len() != 4 * (width
            * height) ==> texture == Err::<Texture, TextureError>(TextureError::WrongLength),
        Texture::made_of(texture, None) ==> texture == Err::<Texture, TextureError>(
            TextureError::Undecodable,
        ),
{
}

} // verus!
