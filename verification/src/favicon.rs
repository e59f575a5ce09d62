use vstd::prelude::*;
use crate::encode::{encode_png_data_uri, sdata_uri};
use crate::perm::generate_perm_table;
use crate::rng::UnitRandom;
use crate::synth::synthesize_pixels;

verus! {

/// Generate one procedural favicon: build a fresh permutation table, draw
/// the per-call noise offsets (in [0, 1000)) and noise scale (in [4, 6)),
/// synthesize the pixel buffer, and encode it as an embeddable PNG data-URI
/// string. For every supported configuration the result is non-empty: the
/// synthesized buffer always has the exact length the encoder demands, so
/// the failure path — which would yield the empty-string sentinel rather
/// than a panic — is never taken.
pub fn generate_favicon_data_uri<R: UnitRandom>(
    rng: &mut R,
    size: u32,
    octaves: u32,
    persistence: i64,
) -> (r: String)
    requires
        1 <= size <= 1024,
        1 <= octaves <= 16,
        0 < persistence < 65536,
    ensures
        r@.len() > 0,
        exists|pixels: Seq<u8>|
            pixels.len() == 4 * size * size && (forall|i: int|
                0 <= i < pixels.len() && i % 4 == 3 ==> pixels[i] == 255) && (forall|i: int|
                0 <= i && i + 3 < pixels.len() && i % 4 == 0 ==> (#[trigger] pixels[i])
                    == pixels[i + 1] && pixels[i] == pixels[i + 2]) && r@ == #[trigger] sdata_uri(
                pixels,
                size,
                size,
            ),
{
    let table = generate_perm_table(rng);
    let off_x = rng.next_unit() * 1000;
    let off_y = rng.next_unit() * 1000;
    let scale = 262144 + rng.next_unit() * 2;
    let buf = synthesize_pixels(rng, size, octaves, persistence, &table, scale, off_x, off_y);
    match encode_png_data_uri(&buf, size, size) {
        Ok(s) => {
            proof {
                reveal_strlit("data:image/png;base64,");
                assert(s@ == sdata_uri(buf@, size, size));
                assert(s@.len() > 0);
            }
            s
        },
        Err(_) => String::new(),
    }
}

} // verus!
