use vstd::prelude::*;
use crate::geometry::{Gaps, Rect, in_i32, rect_of};

verus! {

/// Stacked accordion: windows are overlaid with a visible offset so titles show.
pub struct AccordionLayout {
    pub padding: i32,
}

/// The rectangle of the `i`-th of `n` stacked windows in `inner`, offset by `padding`.
pub open spec fn accordion_rect(inner: Rect, n: int, i: int, padding: int) -> Rect {
    rect_of(
        inner.x + i * padding,
        inner.y + i * padding,
        inner.width - (n - 1) * padding,
        inner.height - (n - 1) * padding,
    )
}

/// Whether the stack of `n` windows in `inner` stays in the range of `i32`.
pub open spec fn accordion_fits(inner: Rect, n: int, padding: int) -> bool {
    &&& in_i32((n - 1) * padding)
    &&& in_i32(inner.x + (n - 1) * padding)
    &&& in_i32(inner.y + (n - 1) * padding)
    &&& in_i32(inner.width - (n - 1) * padding)
    &&& in_i32(inner.height - (n - 1) * padding)
}

proof fn lemma_between(i: int, n: int, p: int)
    requires
        0 <= i < n,
    ensures
        p >= 0 ==> 0 <= i * p <= (n - 1) * p,
        p < 0 ==> (n - 1) * p <= i * p <= 0,
{
    if p >= 0 {
        assert(0 <= i * p <= (n - 1) * p) by (nonlinear_arith)
            requires
                0 <= i <= n - 1,
                p >= 0,
        ;
    } else {
        assert((n - 1) * p <= i * p <= 0) by (nonlinear_arith)
            requires
                0 <= i <= n - 1,
                p < 0,
        ;
    }
}

impl AccordionLayout {
    /// Whether the layout of `count` windows over `area` stays in the range of `i32`:
    /// the outer gaps are always taken off first, and the stack is only computed
    /// where there is a window.
    pub open spec fn fits(&self, count: int, area: Rect, gaps: Gaps) -> bool {
        &&& count <= i32::MAX
        &&& gaps.shrink_fits(area)
        &&& (count == 0 || accordion_fits(gaps.spec_shrink(area), count, self.padding as int))
    }

    /// Whether the layout of `count` windows over `area` stays in the range of `i32`.
    pub fn fits_exec(&self, count: usize, area: Rect, gaps: &Gaps) -> (r: bool)
        ensures
            r == self.fits(count as int, area, *gaps),
    {
        if count > i32::MAX as usize || !gaps.shrink_fits_exec(area) {
            return false;
        }
        if count == 0 {
            return true;
        }
        let inner = gaps.shrink(area);
        let n = count as i64;
        let lo = i32::MIN as i64;
        let hi = i32::MAX as i64;
        proof {
            let nn = n as int;
            let pp = self.padding as int;
            assert(-2147483648 * 2147483648 <= (nn - 1) * pp <= 2147483648 * 2147483648) by (nonlinear_arith)
                requires
                    -1 <= nn - 1 <= 2147483647,
                    -2147483648 <= pp <= 2147483647,
            ;
        }
        let shift = (n - 1) * (self.padding as i64);
        let x = inner.x as i64 + shift;
        let y = inner.y as i64 + shift;
        let w = inner.width as i64 - shift;
        let h = inner.height as i64 - shift;
        lo <= shift && shift <= hi && lo <= x && x <= hi && lo <= y && y <= hi && lo <= w && w
            <= hi && lo <= h && h <= hi
    }

    /// The windows `window_ids` stacked over `area`: window `i` is offset by `i`
    /// paddings right and down, and all share one size, `(n - 1)` paddings smaller
    /// than the area inside the outer gaps.
    pub fn compute(&self, window_ids: &[u32], area: Rect, gaps: &Gaps, focused: Option<u32>) -> (r:
        Vec<(u32, Rect)>)
        requires
            self.fits(window_ids@.len() as int, area, *gaps),
        ensures
            r@.len() == window_ids@.len(),
            forall|i: int|
                0 <= i < r@.len() ==> #[trigger] r@[i] == (
                    window_ids@[i],
                    accordion_rect(
                        gaps.spec_shrink(area),
                        window_ids@.len() as int,
                        i,
                        self.padding as int,
                    ),
                ),
    {
        let inner = gaps.shrink(area);
        let count = window_ids.len() as i32;
        if count == 0 {
            return Vec::new();
        }
        let mut focused_idx: i32 = 0;
        if let Some(fid) = focused {
            let mut j: usize = 0;
            while j < window_ids.len()
                invariant
                    j <= window_ids@.len(),
                    window_ids@.len() <= i32::MAX,
                decreases window_ids@.len() - j,
            {
                if window_ids[j] == fid {
                    focused_idx = j as i32;
                    break;
                }
                j = j + 1;
            }
        }
        let ghost n = window_ids@.len() as int;
        let ghost p = self.padding as int;
        let mut result: Vec<(u32, Rect)> = Vec::new();
        let mut k: usize = 0;
        while k < window_ids.len()
            invariant
                n == window_ids@.len(),
                p == self.padding as int,
                count as int == n,
                n >= 1,
                inner == gaps.spec_shrink(area),
                accordion_fits(inner, n, p),
                k <= n,
                result@.len() == k,
                forall|i: int|
                    0 <= i < k ==> #[trigger] result@[i] == (
                        window_ids@[i],
                        accordion_rect(inner, n, i, p),
                    ),
            decreases n - k,
        {
            let wid = window_ids[k];
            let i = k as i32;
            proof {
                lemma_between(k as int, n, p);
                assert(-2147483648 <= (n - 1) * p <= 2147483647);
            }
            let offset_x = i * self.padding;
            let offset_y = i * self.padding;
            let shrink_w = (count - 1) * self.padding;
            let shrink_h = (count - 1) * self.padding;
            let rect = if i == focused_idx {
                Rect {
                    x: inner.x + offset_x,
                    y: inner.y + offset_y,
                    width: inner.width - shrink_w,
                    height: inner.height - shrink_h,
                }
            } else {
                Rect {
                    x: inner.x + offset_x,
                    y: inner.y + offset_y,
                    width: inner.width - shrink_w,
                    height: inner.height - shrink_h,
                }
            };
            result.push((wid, rect));
            k = k + 1;
        }
        result
    }
}

} // verus!
