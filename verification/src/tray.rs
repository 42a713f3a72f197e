use vstd::prelude::*;

verus! {

/// A name for what decoding an image file to 8-bit RGBA gives: its width, its
/// height and its pixels, or nothing when the bytes are no image the decoder reads.
pub uninterp spec fn decoded_rgba8(bytes: Seq<u8>) -> Option<(u32, u32, Seq<u8>)>;

/// Decodes an image with the `image` crate (`load_from_memory`, guessing the
/// format) and converts it to RGBA with 8 bits per channel (`to_rgba8`). The
/// contract names the result and states that the pixel buffer holds exactly
/// four bytes for each of the `width * height` pixels.
#[verifier::external_body]
fn decode_rgba8(bytes: &[u8]) -> (r: Option<(u32, u32, Vec<u8>)>)
    ensures
        match r {
            Some((w, h, px)) => decoded_rgba8(bytes@) == Some((w, h, px@)) && px@.len() == 4 * w * h,
            None => decoded_rgba8(bytes@) is None,
        },
{
    match image::load_from_memory(bytes) {
        Ok(img) => {
            let rgba = img.to_rgba8();
            let (w, h) = rgba.dimensions();
            Some((w, h, rgba.into_raw()))
        },
        Err(_) => None,
    }
}

/// `out` holds the whole pixels of `rgba` (4 bytes each; a trailing partial
/// pixel is dropped) with alpha moved first: A, R, G, B.
pub open spec fn is_argb_of(rgba: Seq<u8>, out: Seq<u8>) -> bool {
    &&& out.len() == (rgba.len() / 4) * 4
    &&& forall|j: int|
        0 <= j < rgba.len() / 4 ==> {
            &&& #[trigger] out[4 * j] == rgba[4 * j + 3]
            &&& out[4 * j + 1] == rgba[4 * j]
            &&& out[4 * j + 2] == rgba[4 * j + 1]
            &&& out[4 * j + 3] == rgba[4 * j + 2]
        }
}

/// Reorders RGBA pixels into the ARGB order of the tray protocol.
pub fn rgba_to_argb(rgba: &Vec<u8>) -> (out: Vec<u8>)
    ensures
        is_argb_of(rgba@, out@),
{
    let n = rgba.len() / 4;
    let mut out: Vec<u8> = Vec::new();
    let mut k: usize = 0;
    while k < n
        invariant
            k <= n,
            n == rgba@.len() / 4,
            out@.len() == 4 * k,
            forall|j: int|
                0 <= j < k ==> {
                    &&& #[trigger] out@[4 * j] == rgba@[4 * j + 3]
                    &&& out@[4 * j + 1] == rgba@[4 * j]
                    &&& out@[4 * j + 2] == rgba@[4 * j + 1]
                    &&& out@[4 * j + 3] == rgba@[4 * j + 2]
                },
        decreases n - k,
    {
        let len = rgba.len();
        assert(4 * k + 4 <= len) by (nonlinear_arith)
            requires k < n, n == len / 4;
        let c = 4 * k;
        let ghost before = out@;
        out.push(rgba[c + 3]);
        out.push(rgba[c]);
        out.push(rgba[c + 1]);
        out.push(rgba[c + 2]);
        proof {
            assert forall|j: int| 0 <= j < k + 1 implies {
                &&& #[trigger] out@[4 * j] == rgba@[4 * j + 3]
                &&& out@[4 * j + 1] == rgba@[4 * j]
                &&& out@[4 * j + 2] == rgba@[4 * j + 1]
                &&& out@[4 * j + 3] == rgba@[4 * j + 2]
            } by {
                if j < k {
                    assert(out@[4 * j] == before[4 * j]);
                    assert(out@[4 * j + 1] == before[4 * j + 1]);
                    assert(out@[4 * j + 2] == before[4 * j + 2]);
                    assert(out@[4 * j + 3] == before[4 * j + 3]);
                }
            }
        }
        k = k + 1;
    }
    out
}

/// An icon for the tray: its size and its ARGB pixels.
pub struct TrayIcon {
    pub width: i32,
    pub height: i32,
    pub data: Vec<u8>,
}

/// The tray icons made from an image file: one icon with the image's size (as
/// `i32`) and its pixels in ARGB order, four bytes for each pixel, or none when
/// the file does not decode.
pub fn tray_icons(png: &[u8]) -> (r: Vec<TrayIcon>)
    ensures
        match decoded_rgba8(png@) {
            Some((w, h, px)) => r@.len() == 1 && r@[0].width == w as i32 && r@[0].height == h as i32
                && is_argb_of(px, r@[0].data@) && r@[0].data@.len() == 4 * w * h,
            None => r@.len() == 0,
        },
{
    let mut r: Vec<TrayIcon> = Vec::new();
    match decode_rgba8(png) {
        Some((w, h, px)) => {
            let data = rgba_to_argb(&px);
            proof {
                let m: int = w * h;
                assert(4 * w * h == 4 * m) by (nonlinear_arith)
                    requires m == w * h;
                assert((4 * m) / 4 * 4 == 4 * m);
            }
            r.push(TrayIcon { width: w as i32, height: h as i32, data });
        },
        None => {},
    }
    r
}

} // verus!
