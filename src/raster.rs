//! The debug picture of a discharge: charges and candidate sites painted into
//! a grayscale pixel buffer centred on the origin, then encoded as PNG.
use vstd::prelude::*;
use crate::grid::site;

verus! {

/// Brightness of a pixel that holds a charge.
pub const CHARGE_LEVEL: u8 = 255;

/// Brightness of a pixel that holds a candidate site.
pub const CANDIDATE_LEVEL: u8 = 127;

/// The site shown by pixel `idx` of a `width` x `height` buffer laid out row
/// by row, the origin sitting at pixel `(width / 2, height / 2)`.
pub open spec fn pixel_site(idx: int, width: u32, height: u32) -> [i32; 2] {
    site(idx % (width as int) - width / 2, idx / (width as int) - height / 2)
}

/// Brightness of pixel `idx`: candidate sites are painted over charges, and
/// every other pixel is black.
pub open spec fn pixel_level(
    charges: Seq<[i32; 2]>,
    candidates: Seq<[i32; 2]>,
    width: u32,
    height: u32,
    idx: int,
) -> u8 {
    if candidates.contains(pixel_site(idx, width, height)) {
        CANDIDATE_LEVEL
    } else if charges.contains(pixel_site(idx, width, height)) {
        CHARGE_LEVEL
    } else {
        0
    }
}

/// The whole buffer.
pub open spec fn raster(
    charges: Seq<[i32; 2]>,
    candidates: Seq<[i32; 2]>,
    width: u32,
    height: u32,
) -> Seq<u8> {
    Seq::new(
        (width * height) as nat,
        |idx: int| pixel_level(charges, candidates, width, height, idx),
    )
}

/// The bytes of the PNG file that encodes `pixels` as an 8-bit grayscale
/// image of `width` x `height`.
pub uninterp spec fn grayscale_png(pixels: Seq<u8>, width: u32, height: u32) -> Seq<u8>;

#[verifier::external_type_specification]
#[verifier::external_body]
pub struct ExEncodingError(png::EncodingError);

/// Why a picture could not be produced.
pub enum ImageError {
    /// The encoder refused the image (an empty dimension).
    Encoding,
}

/// Relies on png's `Encoder` writing into memory: with colour type
/// `Grayscale` and depth `Eight`, `write_header` refuses a zero width or
/// height, `write_image_data` refuses data that is not `width * height`
/// bytes long, and writing into a `Vec<u8>` does not fail otherwise. The row
/// length in bits (`width * 8`) and the image size are computed in `usize`.
#[verifier::external_body]
fn encode_grayscale_png(pixels: &Vec<u8>, width: u32, height: u32) -> (r: Result<
    Vec<u8>,
    png::EncodingError,
>)
    requires
        width * 8 + 8 <= usize::MAX,
        width * height <= usize::MAX,
    ensures
        r is Ok ==> r->Ok_0@ == grayscale_png(pixels@, width, height),
        r is Ok <==> (width > 0 && height > 0 && pixels@.len() == width * height),
{
    let mut out: Vec<u8> = Vec::new();
    let mut encoder = png::Encoder::new(&mut out, width, height);
    encoder.set_color(png::ColorType::Grayscale);
    encoder.set_depth(png::BitDepth::Eight);
    let mut writer = encoder.write_header()?;
    writer.write_image_data(pixels)?;
    drop(writer);
    Ok(out)
}

proof fn lemma_row_bound(idx: int, w: int, h: int)
    requires
        0 <= idx < w * h,
        0 < w,
    ensures
        0 <= idx % w < w,
        0 <= idx / w < h,
{
    vstd::arithmetic::div_mod::lemma_fundamental_div_mod(idx, w);
    vstd::arithmetic::div_mod::lemma_mod_bound(idx, w);
    vstd::arithmetic::div_mod::lemma_div_pos_is_pos(idx, w);
    let q = idx / w;
    let r = idx % w;
    assert(q < h) by (nonlinear_arith)
        requires
            idx == w * q + r,
            0 <= r,
            idx < w * h,
            0 < w,
    ;
}

proof fn lemma_pixel_of_point(p: [i32; 2], x: int, y: int, width: u32, height: u32, idx: int)
    requires
        0 <= x < width,
        0 <= y < height,
        x == p[0] + width / 2,
        y == p[1] + height / 2,
    ensures
        pixel_site(x + width * y, width, height) == p,
        0 <= x + width * y < width * height,
        0 <= idx < width * height && pixel_site(idx, width, height) == p ==> idx == x + width * y,
{
    let w = width as int;
    assert((x + w * y) % w == x && (x + w * y) / w == y) by {
        assert(x + w * y == y * w + x) by (nonlinear_arith);
        vstd::arithmetic::div_mod::lemma_fundamental_div_mod_converse(x + w * y, w, y, x);
    }
    assert(0 <= x + w * y < w * (height as int)) by (nonlinear_arith)
        requires
            0 <= x < w,
            0 <= y < height,
    ;
    let q = pixel_site(x + w * y, width, height);
    assert(q =~= p);
    if 0 <= idx < w * height && pixel_site(idx, width, height) == p {
        vstd::arithmetic::div_mod::lemma_fundamental_div_mod(idx, w);
        lemma_row_bound(idx, w, height as int);
        assert(idx % w == x && idx / w == y);
    }
}

/// Paints `level` over every pixel that shows a site of `points`; points that
/// fall outside the buffer are skipped.
fn paint(data: &mut Vec<u8>, points: &Vec<[i32; 2]>, level: u8, width: u32, height: u32)
    requires
        old(data)@.len() == width * height,
        width * height <= usize::MAX,
    ensures
        final(data)@.len() == old(data)@.len(),
        forall|idx: int|
            0 <= idx < old(data)@.len() ==> #[trigger] final(data)@[idx] == if points@.contains(
                pixel_site(idx, width, height),
            ) {
                level
            } else {
                old(data)@[idx]
            },
{
    let ghost before = data@;
    let cx: i64 = (width / 2) as i64;
    let cy: i64 = (height / 2) as i64;
    let mut n: usize = 0;
    while n < points.len()
        invariant
            n <= points@.len(),
            data@.len() == before.len(),
            before.len() == width * height,
            width * height <= usize::MAX,
            cx == width / 2,
            cy == height / 2,
            forall|idx: int|
                0 <= idx < before.len() ==> #[trigger] data@[idx] == if points@.take(
                    n as int,
                ).contains(pixel_site(idx, width, height)) {
                    level
                } else {
                    before[idx]
                },
        decreases points.len() - n,
    {
        let p = points[n];
        let x: i64 = p[0] as i64 + cx;
        let y: i64 = p[1] as i64 + cy;
        let ghost prev = data@;
        proof {
            Seq::lemma_take_succ(points@, n as int);
            assert(points@.take(n as int + 1) == points@.take(n as int).push(p));
        }
        if 0 <= x && x < width as i64 && 0 <= y && y < height as i64 {
            let ghost at = x + width * y;
            proof {
                lemma_pixel_of_point(p, x as int, y as int, width, height, 0);
            }
            let idx: usize = (x as usize) + (width as usize) * (y as usize);
            data.set(idx, level);
            proof {
                assert forall|j: int| 0 <= j < before.len() implies #[trigger] data@[j] == if points@.take(
                    n as int + 1,
                ).contains(pixel_site(j, width, height)) {
                    level
                } else {
                    before[j]
                } by {
                    lemma_pixel_of_point(p, x as int, y as int, width, height, j);
                    let taken = points@.take(n as int);
                    let q = pixel_site(j, width, height);
                    assert(taken.push(p).contains(q) == (taken.contains(q) || q == p)) by {
                        if taken.push(p).contains(q) && q != p {
                            let i = choose|i: int| 0 <= i < taken.len() + 1 && taken.push(p)[i] == q;
                            assert(taken[i] == q);
                        }
                        if taken.contains(q) {
                            let i = choose|i: int| 0 <= i < taken.len() && taken[i] == q;
                            assert(taken.push(p)[i] == q);
                        }
                        if q == p {
                            assert(taken.push(p)[taken.len() as int] == q);
                        }
                    }
                }
            }
        } else {
            proof {
                assert forall|j: int| 0 <= j < before.len() implies #[trigger] data@[j] == if points@.take(
                    n as int + 1,
                ).contains(pixel_site(j, width, height)) {
                    level
                } else {
                    before[j]
                } by {
                    let taken = points@.take(n as int);
                    let q = pixel_site(j, width, height);
                    assert(q != p) by {
                        if q == p {
                            let w = width as int;
                            assert(w > 0) by (nonlinear_arith)
                                requires
                                    0 <= j < w * height,
                                    0 <= height,
                            ;
                            lemma_row_bound(j, w, height as int);
                            assert(q[0] == j % w - width / 2);
                            assert(q[1] == j / w - height / 2);
                        }
                    }
                    if taken.push(p).contains(q) {
                        let i = choose|i: int| 0 <= i < taken.len() + 1 && taken.push(p)[i] == q;
                        assert(taken[i] == q);
                    }
                    if taken.contains(q) {
                        let i = choose|i: int| 0 <= i < taken.len() && taken[i] == q;
                        assert(taken.push(p)[i] == q);
                    }
                }
            }
        }
        n = n + 1;
    }
    proof {
        assert(points@.take(points@.len() as int) == points@);
    }
}

/// The debug picture's pixels: a `width` x `height` grayscale buffer, row by
/// row, with the origin at its centre, charges at `CHARGE_LEVEL`, candidate
/// sites at `CANDIDATE_LEVEL` (painted last) and sites outside it clipped.
pub fn render_pixels(
    charges: &Vec<[i32; 2]>,
    candidate_sites: &Vec<[i32; 2]>,
    width: u32,
    height: u32,
) -> (r: Vec<u8>)
    requires
        width * height <= usize::MAX,
    ensures
        r@ == raster(charges@, candidate_sites@, width, height),
{
    let size: usize = (width as usize) * (height as usize);
    let mut data: Vec<u8> = Vec::with_capacity(size);
    let mut i: usize = 0;
    while i < size
        invariant
            i <= size,
            size == width * height,
            data@.len() == i,
            forall|j: int| 0 <= j < i ==> data@[j] == 0,
        decreases size - i,
    {
        data.push(0);
        i = i + 1;
    }
    paint(&mut data, charges, CHARGE_LEVEL, width, height);
    paint(&mut data, candidate_sites, CANDIDATE_LEVEL, width, height);
    assert(data@ =~= raster(charges@, candidate_sites@, width, height));
    data
}

/// The debug picture of a discharge as PNG file bytes: `render_pixels`,
/// encoded as an 8-bit grayscale image.
pub fn write_debug_lightning(
    charges: &Vec<[i32; 2]>,
    candidate_sites: &Vec<[i32; 2]>,
    width: u32,
    height: u32,
) -> (r: Result<Vec<u8>, ImageError>)
    requires
        width * 8 + 8 <= usize::MAX,
        width * height <= usize::MAX,
    ensures
        r is Ok ==> r->Ok_0@ == grayscale_png(
            raster(charges@, candidate_sites@, width, height),
            width,
            height,
        ),
        r is Ok <==> (width > 0 && height > 0),
{
    let data = render_pixels(charges, candidate_sites, width, height);
    match encode_grayscale_png(&data, width, height) {
        Ok(bytes) => Ok(bytes),
        Err(_) => Err(ImageError::Encoding),
    }
}

} // verus!
