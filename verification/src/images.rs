use vstd::prelude::*;

verus! {

use crate::document::PdfError;

/// An exact non-negative rational, in millimetres here: `num / den`.
#[derive(Clone, Copy, PartialEq, Eq, Structural, Debug)]
pub struct Frac {
    pub num: u64,
    pub den: u64,
}

/// The physical size of one composed page.
#[derive(Clone, Copy, PartialEq, Eq, Structural, Debug)]
pub struct PageDims {
    pub width: Frac,
    pub height: Frac,
}

/// The reference sheet: 210 mm by 297 mm.
pub open spec fn sheet_w() -> int {
    210
}

pub open spec fn sheet_h() -> int {
    297
}

/// Whether a fraction is at most the integer `n`.
pub open spec fn frac_le(f: Frac, n: int) -> bool {
    f.num <= n * f.den
}

/// The page cut for one image of `w` by `h` pixels: the image's physical
/// size at 96 pixels per inch (so `127/480` mm per pixel), shrunk
/// uniformly to fit the sheet when it overflows it, never enlarged.
pub open spec fn fit_dims(w: u32, h: u32) -> PageDims {
    if 127 * w <= 480 * sheet_w() && 127 * h <= 480 * sheet_h() {
        PageDims {
            width: Frac { num: (127 * w) as u64, den: 480u64 },
            height: Frac { num: (127 * h) as u64, den: 480u64 },
        }
    } else if sheet_w() * h <= sheet_h() * w {
        PageDims {
            width: Frac { num: sheet_w() as u64, den: 1u64 },
            height: Frac { num: (sheet_w() * h) as u64, den: w as u64 },
        }
    } else {
        PageDims {
            width: Frac { num: (sheet_h() * w) as u64, den: h as u64 },
            height: Frac { num: sheet_h() as u64, den: 1u64 },
        }
    }
}

/// Every cut page fits the sheet both ways, keeps the image's exact aspect
/// ratio, and is never larger than the image's own physical size.
pub proof fn lemma_fit_dims(w: u32, h: u32)
    ensures
        fit_dims(w, h).width.den > 0,
        fit_dims(w, h).height.den > 0,
        frac_le(fit_dims(w, h).width, sheet_w()),
        frac_le(fit_dims(w, h).height, sheet_h()),
        fit_dims(w, h).width.num * h * fit_dims(w, h).height.den == fit_dims(w, h).height.num * w
            * fit_dims(w, h).width.den,
        fit_dims(w, h).width.num * 480 <= 127 * w * fit_dims(w, h).width.den,
        fit_dims(w, h).height.num * 480 <= 127 * h * fit_dims(w, h).height.den,
{
    let pd = fit_dims(w, h);
    if 127 * w <= 480 * sheet_w() && 127 * h <= 480 * sheet_h() {
        assert(pd.width.num * h * pd.height.den == pd.height.num * w * pd.width.den)
            by (nonlinear_arith)
            requires
                pd.width.num == 127 * w,
                pd.height.num == 127 * h,
                pd.width.den == 480,
                pd.height.den == 480,
        ;
    } else if sheet_w() * h <= sheet_h() * w {
        assert(w >= 1) by {
            if w == 0 {
                assert(210 * h <= 0);
            }
        }
        assert(pd.width.num * h * pd.height.den == pd.height.num * w * pd.width.den)
            by (nonlinear_arith)
            requires
                pd.width.num == 210,
                pd.width.den == 1,
                pd.height.num == 210 * h,
                pd.height.den == w,
        ;
        assert(frac_le(pd.height, 297)) by (nonlinear_arith)
            requires
                pd.height.num == 210 * h,
                pd.height.den == w,
                210 * h <= 297 * w,
        ;
        assert(pd.width.num * 480 <= 127 * w * pd.width.den) by (nonlinear_arith)
            requires
                pd.width.num == 210,
                pd.width.den == 1,
                127 * w > 480 * 210 || (127 * h > 480 * 297 && 210 * h <= 297 * w && w >= 1),
        ;
        assert(pd.height.num * 480 <= 127 * h * pd.height.den) by (nonlinear_arith)
            requires
                pd.height.num == 210 * h,
                pd.height.den == w,
                127 * w > 480 * 210 || (127 * h > 480 * 297 && 210 * h <= 297 * w && w >= 1),
        ;
    } else {
        assert(h >= 1) by {
            if h == 0 {
                assert(!(210 * 0 <= 297 * w));
            }
        }
        assert(pd.width.num * h * pd.height.den == pd.height.num * w * pd.width.den)
            by (nonlinear_arith)
            requires
                pd.height.num == 297,
                pd.height.den == 1,
                pd.width.num == 297 * w,
                pd.width.den == h,
        ;
        assert(frac_le(pd.width, 210)) by (nonlinear_arith)
            requires
                pd.width.num == 297 * w,
                pd.width.den == h,
                !(210 * h <= 297 * w) || 297 * w < 210 * h,
                297 * w <= 210 * h,
        ;
        assert(pd.width.num * 480 <= 127 * w * pd.width.den) by (nonlinear_arith)
            requires
                pd.width.num == 297 * w,
                pd.width.den == h,
                127 * h > 480 * 297,
        ;
        assert(pd.height.num * 480 <= 127 * h * pd.height.den) by (nonlinear_arith)
            requires
                pd.height.num == 297,
                pd.height.den == 1,
                127 * h > 480 * 297,
        ;
    }
}

/// Cuts one page per image, in input order: each page carries its image at
/// the image's physical size under 96 pixels per inch, shrunk uniformly to
/// the 210 by 297 sheet when needed and never enlarged.  An empty input
/// list is refused.
pub fn images_to_pdf(dims: &Vec<(u32, u32)>) -> (r: Result<Vec<PageDims>, PdfError>)
    ensures
        r is Err <==> dims@.len() == 0,
        r is Err ==> r == Err::<Vec<PageDims>, PdfError>(PdfError::NoInput),
        r matches Ok(v) ==> v@.len() == dims@.len() && (forall|i: int|
            0 <= i < dims@.len() ==> #[trigger] v@[i] == fit_dims(dims@[i].0, dims@[i].1)),
{
    if dims.len() == 0 {
        return Err(PdfError::NoInput);
    }
    let mut out: Vec<PageDims> = Vec::new();
    let mut i: usize = 0;
    while i < dims.len()
        invariant
            0 <= i <= dims@.len(),
            out@.len() == i,
            forall|j: int| 0 <= j < i ==> #[trigger] out@[j] == fit_dims(dims@[j].0, dims@[j].1),
        decreases dims@.len() - i,
    {
        let (w, h) = dims[i];
        let wmm: u64 = 127 * (w as u64);
        let hmm: u64 = 127 * (h as u64);
        let pd = if wmm <= 480 * 210 && hmm <= 480 * 297 {
            PageDims {
                width: Frac { num: wmm, den: 480 },
                height: Frac { num: hmm, den: 480 },
            }
        } else if 210 * (h as u64) <= 297 * (w as u64) {
            PageDims {
                width: Frac { num: 210, den: 1 },
                height: Frac { num: 210 * (h as u64), den: w as u64 },
            }
        } else {
            PageDims {
                width: Frac { num: 297 * (w as u64), den: h as u64 },
                height: Frac { num: 297, den: 1 },
            }
        };
        proof {
            assert(pd == fit_dims(w, h));
        }
        out.push(pd);
        i = i + 1;
    }
    Ok(out)
}

} // verus!
