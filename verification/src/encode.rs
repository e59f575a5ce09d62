use vstd::prelude::*;
use vstd::string::StringExecFns;

verus! {

/// The one failure kind of the pipeline: the compressed-image serialization
/// step could not produce valid output from the given buffer and dimensions.
#[derive(Debug, Clone, Copy, PartialEq, Eq, Structural)]
pub struct EncodingFailure {}

#[verifier::external_type_specification]
#[verifier::external_body]
pub struct ExImageError(image::ImageError);

/// Name for the PNG container bytes that the `image` crate's PNG encoder
/// produces, with its default compression and filter, from an RGBA8 buffer
/// of the given dimensions: a function of the pixel data and dimensions
/// alone.
pub uninterp spec fn png_bytes_of(pixels: Seq<u8>, width: u32, height: u32) -> Seq<u8>;

/// Name for the base64 text (standard alphabet, padded) of a byte sequence.
pub uninterp spec fn base64_of(bytes: Seq<u8>) -> Seq<char>;

/// Relies on image's `PngEncoder::new` and `ImageEncoder::write_image` with
/// `ExtendedColorType::Rgba8`: `write_image` panics unless the buffer length
/// is exactly `4 * width * height` (hence the requires). For nonzero
/// dimensions it succeeds — the png writer refuses only zero dimensions,
/// every write goes into the vector, and writing into a `Vec` cannot fail —
/// and what it wrote is one deterministic PNG encoding of the buffer, which
/// for a canvas of at most 1024 x 1024 stays far below 2^32 bytes.
#[verifier::external_body]
fn png_encode_rgba(pixels: &Vec<u8>, width: u32, height: u32) -> (r: Result<
    Vec<u8>,
    image::ImageError,
>)
    requires
        pixels@.len() == 4 * width * height,
        width <= 1024,
        height <= 1024,
    ensures
        width >= 1 && height >= 1 ==> r is Ok,
        r matches Ok(v) ==> v@ == png_bytes_of(pixels@, width, height) && v@.len() < 4294967296,
{
    let mut out: Vec<u8> = Vec::new();
    let enc = image::codecs::png::PngEncoder::new(&mut out);
    match image::ImageEncoder::write_image(
        enc,
        pixels.as_slice(),
        width,
        height,
        image::ExtendedColorType::Rgba8,
    ) {
        Ok(()) => Ok(out),
        Err(e) => Err(e),
    }
}

/// Relies on base64's `Engine::encode` with the standard padded alphabet:
/// the text is a function of the input bytes alone, four characters for
/// every three bytes rounded up; it panics only when that output length
/// overflows `usize`, which the requires rules out.
#[verifier::external_body]
fn base64_encode(bytes: &Vec<u8>) -> (r: String)
    requires
        bytes@.len() < 4294967296,
    ensures
        r@ == base64_of(bytes@),
        r@.len() == 4 * ((bytes@.len() + 2) / 3),
{
    base64::Engine::encode(&base64::engine::general_purpose::STANDARD, bytes.as_slice())
}

/// Spec: the media-type header of the embeddable icon string.
pub open spec fn data_uri_prefix() -> Seq<char> {
    "data:image/png;base64,"@
}

/// Spec: the embeddable icon string for an RGBA8 pixel buffer.
pub open spec fn sdata_uri(pixels: Seq<u8>, width: u32, height: u32) -> Seq<char> {
    data_uri_prefix() + base64_of(png_bytes_of(pixels, width, height))
}

/// Serialize a fully populated RGBA8 pixel buffer into a self-describing
/// embeddable PNG data-URI string. A buffer whose length is not exactly
/// `4 * width * height` is rejected with `EncodingFailure`, as are
/// unsupported dimensions (zero, or beyond the 1024-pixel cap of this
/// library); on every supported, exactly-sized buffer the encoding succeeds,
/// and it never panics.
pub fn encode_png_data_uri(pixels: &Vec<u8>, width: u32, height: u32) -> (r: Result<
    String,
    EncodingFailure,
>)
    ensures
        pixels@.len() != 4 * width * height ==> r is Err,
        width == 0 || height == 0 || width > 1024 || height > 1024 ==> r is Err,
        pixels@.len() == 4 * width * height && 1 <= width <= 1024 && 1 <= height <= 1024 ==> r
            is Ok,
        r matches Ok(s) ==> pixels@.len() == 4 * width * height && s@ == sdata_uri(
            pixels@,
            width,
            height,
        ),
{
    if width == 0 || height == 0 || width > 1024 || height > 1024 {
        return Err(EncodingFailure {  });
    }
    proof {
        vstd::arithmetic::mul::lemma_mul_nonnegative(width as int, height as int);
        vstd::arithmetic::mul::lemma_mul_upper_bound(width as int, 1024, height as int, 1024);
        assert(4 * (width as int * height as int) == 4 * width as int * height as int)
            by (nonlinear_arith);
    }
    let expected: u64 = 4 * (width as u64) * (height as u64);
    if (pixels.len() as u64) != expected {
        return Err(EncodingFailure {  });
    }
    let png = match png_encode_rgba(pixels, width, height) {
        Ok(v) => v,
        Err(_) => {
            return Err(EncodingFailure {  });
        },
    };
    let b64 = base64_encode(&png);
    let mut s = String::from_str("data:image/png;base64,");
    s.append(b64.as_str());
    Ok(s)
}

} // verus!
