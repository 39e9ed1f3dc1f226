//! What a decoder hands back, and the decoders whose logic the library holds.
use vstd::prelude::*;
use crate::geometry::{Point, MILLI_PER_PIXEL};

verus! {

/// Outcome of one successful decode call: the payload text, and the four
/// detected corners when the decoder reports geometry.
#[derive(Clone, Debug)]
pub struct DecodeResult {
    pub text: String,
    pub points: Option<Vec<Point>>,
}

/// Why a decode call produced no result.
#[derive(Clone, Copy, Debug, PartialEq, Eq, Structural)]
pub enum DecodeError {
    /// No code was found, or none that could be read.
    NotFound,
    /// The pixel buffer does not hold `width * height` values.
    BadImage,
}

/// An 8-bit greyscale image, row by row.
#[derive(Clone, Debug)]
pub struct LumaImage {
    pub width: usize,
    pub height: usize,
    pub pixels: Vec<u8>,
}

impl LumaImage {
    /// The buffer holds exactly one value per pixel.
    pub open spec fn wf(&self) -> bool {
        self.width * self.height == self.pixels@.len()
    }
}

/// The values a scan reads: the pixels, or their complements when `inverted`.
pub open spec fn luma_plane(pixels: Seq<u8>, inverted: bool) -> Seq<u8> {
    if inverted {
        pixels.map_values(|p: u8| (255 - p) as u8)
    } else {
        pixels
    }
}

/// Luminance at column `x`, row `y`, complemented when `inverted`; zero
/// outside the buffer.
pub fn luma_at(img: &LumaImage, x: usize, y: usize, inverted: bool) -> (r: u8)
    ensures
        (x < img.width && y < img.height && y * img.width + x < img.pixels@.len()) ==> r
            == luma_plane(img.pixels@, inverted)[y * img.width + x],
        !(x < img.width && y < img.height && y * img.width + x < img.pixels@.len()) ==> r == 0,
{
    if x >= img.width || y >= img.height {
        return 0;
    }
    assert((y as int) * (img.width as int) < 0x1_0000_0000_0000_0000_0000_0000_0000_0000 - 0x1_0000_0000_0000_0000)
        by (nonlinear_arith)
        requires
            y < img.height,
            y <= 0xffff_ffff_ffff_ffff,
            img.width <= 0xffff_ffff_ffff_ffff,
    ;
    let idx: u128 = (y as u128) * (img.width as u128) + (x as u128);
    if idx >= img.pixels.len() as u128 {
        return 0;
    }
    let p = img.pixels[idx as usize];
    if inverted {
        255 - p
    } else {
        p
    }
}

/// One grid found by an rqrr scan: its payload when it decoded, and its four
/// corners in whole pixels (top-left, top-right, bottom-right, bottom-left).
#[derive(Clone, Debug)]
pub struct GridScan {
    pub text: Option<String>,
    pub bounds: [(i32, i32); 4],
}

/// Plain form of a grid scan.
pub open spec fn scan_view(g: GridScan) -> (Option<Seq<char>>, Seq<(i32, i32)>) {
    (
        match g.text {
            Some(t) => Some(t@),
            None => None,
        },
        g.bounds@,
    )
}

pub open spec fn scans_view(v: Seq<GridScan>) -> Seq<(Option<Seq<char>>, Seq<(i32, i32)>)> {
    v.map_values(|g: GridScan| scan_view(g))
}

/// A corner in whole pixels, in the library's fixed-point units.
pub open spec fn pixel_point(p: (i32, i32)) -> Point {
    Point { x: (p.0 * MILLI_PER_PIXEL) as i64, y: (p.1 * MILLI_PER_PIXEL) as i64 }
}

/// The result given by the first grid whose payload decoded, with its
/// corners converted to fixed point.
pub open spec fn first_decoded(scans: Seq<(Option<Seq<char>>, Seq<(i32, i32)>)>) -> Option<
    (Seq<char>, Seq<Point>),
>
    decreases scans.len(),
{
    if scans.len() == 0 {
        None
    } else {
        match scans[0].0 {
            Some(t) => Some((t, scans[0].1.map_values(|p: (i32, i32)| pixel_point(p)))),
            None => first_decoded(scans.drop_first()),
        }
    }
}

/// What the rqrr decoder asks for next.
#[derive(Debug)]
pub enum RqrrStep {
    /// Scan the image with rqrr, reading it through `luma_at` with this
    /// `inverted` flag, and hand the grids found to `after_scan`.
    Scan { inverted: bool },
    /// The decode call is over, with this result.
    Finished(Result<DecodeResult, DecodeError>),
}

/// Decoder backed by the rqrr crate. The scans run outside the library,
/// under the benchmark's fault boundary; the library decides what each scan
/// means and whether the complement of the image is scanned too.
#[derive(Clone, Copy, Debug)]
pub struct RqrrDecoder;

impl RqrrDecoder {
    /// The name under which results are recorded.
    pub fn name(&self) -> (r: String)
        ensures
            r@ == seq!['r', 'q', 'r', 'r'],
    {
        proof {
            reveal_strlit("rqrr");
        }
        String::from_str("rqrr")
    }

    /// Converts corners in whole pixels to fixed point.
    pub fn corners_to_points(bounds: &[(i32, i32); 4]) -> (r: Vec<Point>)
        ensures
            r@ == bounds@.map_values(|p: (i32, i32)| pixel_point(p)),
            r@.len() == 4,
    {
        let mut r: Vec<Point> = Vec::new();
        let mut i: usize = 0;
        while i < 4
            invariant
                i <= 4,
                bounds@.len() == 4,
                r@ == bounds@.take(i as int).map_values(|p: (i32, i32)| pixel_point(p)),
            decreases 4 - i,
        {
            let (x, y) = bounds[i];
            r.push(Point { x: (x as i64) * MILLI_PER_PIXEL, y: (y as i64) * MILLI_PER_PIXEL });
            i += 1;
            assert(r@ =~= bounds@.take(i as int).map_values(|p: (i32, i32)| pixel_point(p)));
        }
        assert(bounds@.take(4) =~= bounds@);
        r
    }

    /// The result of the first grid whose payload decoded, if any.
    pub fn first_decoded(scans: &Vec<GridScan>) -> (r: Option<DecodeResult>)
        ensures
            match r {
                Some(d) => first_decoded(scans_view(scans@)) == Some(
                    (d.text@, d.points->Some_0@),
                ) && d.points.is_some() && d.points->Some_0@.len() == 4,
                None => first_decoded(scans_view(scans@)).is_none(),
            },
    {
        let ghost sv = scans_view(scans@);
        let mut i: usize = 0;
        assert(sv.skip(0) =~= sv);
        while i < scans.len()
            invariant
                i <= scans@.len(),
                sv == scans_view(scans@),
                first_decoded(sv) == first_decoded(sv.skip(i as int)),
            decreases scans@.len() - i,
        {
            let g = &scans[i];
            assert(sv.skip(i as int)[0] == scan_view(*g));
            match &g.text {
                Some(t) => {
                    let points = RqrrDecoder::corners_to_points(&g.bounds);
                    return Some(DecodeResult { text: t.clone(), points: Some(points) });
                },
                None => {
                    assert(sv.skip(i as int).drop_first() =~= sv.skip(i + 1));
                },
            }
            i += 1;
        }
        None
    }

    /// Starts a decode call: a buffer that does not hold one value per pixel
    /// is refused, else the image itself is scanned first.
    pub fn begin(&self, image: &LumaImage) -> (r: RqrrStep)
        ensures
            image.wf() ==> r == (RqrrStep::Scan { inverted: false }),
            !image.wf() ==> r == RqrrStep::Finished(Err(DecodeError::BadImage)),
    {
        assert((image.width as int) * (image.height as int) < 0x1_0000_0000_0000_0000_0000_0000_0000_0000)
            by (nonlinear_arith)
            requires
                image.width <= 0xffff_ffff_ffff_ffff,
                image.height <= 0xffff_ffff_ffff_ffff,
        ;
        let area: u128 = (image.width as u128) * (image.height as u128);
        if area != image.pixels.len() as u128 {
            RqrrStep::Finished(Err(DecodeError::BadImage))
        } else {
            RqrrStep::Scan { inverted: false }
        }
    }

    /// Reads the grids of one scan: the first grid that decoded gives the
    /// result; when none did, the complement of the image is scanned next, so
    /// that light-on-dark codes are read too, and after that scan the call
    /// fails with `NotFound`.
    pub fn after_scan(&self, inverted: bool, scans: &Vec<GridScan>) -> (r: RqrrStep)
        ensures
            match r {
                RqrrStep::Finished(Ok(d)) => d.points.is_some() && d.points->Some_0@.len() == 4
                    && first_decoded(scans_view(scans@)) == Some((d.text@, d.points->Some_0@)),
                RqrrStep::Finished(Err(e)) => inverted && e == DecodeError::NotFound
                    && first_decoded(scans_view(scans@)).is_none(),
                RqrrStep::Scan { inverted: next } => !inverted && next
                    && first_decoded(scans_view(scans@)).is_none(),
            },
    {
        match RqrrDecoder::first_decoded(scans) {
            Some(d) => RqrrStep::Finished(Ok(d)),
            None => {
                if inverted {
                    RqrrStep::Finished(Err(DecodeError::NotFound))
                } else {
                    RqrrStep::Scan { inverted: true }
                }
            },
        }
    }
}

} // verus!
