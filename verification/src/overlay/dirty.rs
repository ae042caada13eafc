//! Which parts of the surface a frame actually touched.
//!
//! Tracking what was touched lets clearing and copying be done on that part
//! alone. Two rules keep it honest:
//!
//! * A region has to cover *last* frame's marks as well as this one's, or the
//!   overlay smears.
//! * When the marks are spread far enough that the regions cover most of the
//!   screen anyway, one whole-screen region is cheaper than many small ones.

use vstd::prelude::*;

verus! {

/// Regions to merge into before falling back to a single bounding box.
pub const MAX_REGIONS: usize = 24;

/// Share of the surface, in per cent, past which one whole-screen region wins.
pub const FULL_SCREEN_SHARE: i64 = 60;

/// How close two marks may sit and still be merged into one region.
pub const MERGE_SLACK: i32 = 4;

/// A rectangle in surface coordinates. Right and bottom are exclusive.
#[derive(Clone, Copy, Debug, PartialEq, Eq, Structural)]
pub struct Rect {
    pub left: i32,
    pub top: i32,
    pub right: i32,
    pub bottom: i32,
}

pub open spec fn min_int(a: int, b: int) -> int {
    if a <= b {
        a
    } else {
        b
    }
}

pub open spec fn max_int(a: int, b: int) -> int {
    if a >= b {
        a
    } else {
        b
    }
}

/// A rectangle covers no pixel when either side has no length.
pub open spec fn rect_empty(r: Rect) -> bool {
    r.right <= r.left || r.bottom <= r.top
}

/// The number of pixels a rectangle covers.
pub open spec fn rect_area(r: Rect) -> int {
    if rect_empty(r) {
        0
    } else {
        (r.right - r.left) * (r.bottom - r.top)
    }
}

/// Whether the pixel at `(x, y)` lies in a rectangle.
pub open spec fn rect_contains(r: Rect, x: int, y: int) -> bool {
    r.left <= x < r.right && r.top <= y < r.bottom
}

/// Whether a rectangle lies inside a surface of the given size.
pub open spec fn rect_inside(r: Rect, width: int, height: int) -> bool {
    0 <= r.left && 0 <= r.top && r.right <= width && r.bottom <= height
}

/// The smallest rectangle holding both.
pub open spec fn rect_union(a: Rect, b: Rect) -> Rect {
    Rect {
        left: min_int(a.left as int, b.left as int) as i32,
        top: min_int(a.top as int, b.top as int) as i32,
        right: max_int(a.right as int, b.right as int) as i32,
        bottom: max_int(a.bottom as int, b.bottom as int) as i32,
    }
}

/// Whether two rectangles overlap once each is grown by `slack`.
pub open spec fn rect_near(a: Rect, b: Rect, slack: int) -> bool {
    &&& a.left - slack < b.right
    &&& b.left - slack < a.right
    &&& a.top - slack < b.bottom
    &&& b.top - slack < a.bottom
}

/// A rectangle cut down to a surface of the given size.
pub open spec fn rect_clamp(r: Rect, width: i32, height: i32) -> Rect {
    Rect {
        left: max_int(r.left as int, 0) as i32,
        top: max_int(r.top as int, 0) as i32,
        right: min_int(r.right as int, width as int) as i32,
        bottom: min_int(r.bottom as int, height as int) as i32,
    }
}

/// The rectangle around two points, grown by a margin, as exact integers.
pub open spec fn around_fits(a: (i32, i32), b: (i32, i32), margin: i32) -> bool {
    &&& i32::MIN <= min_int(a.0 as int, b.0 as int) - margin <= i32::MAX
    &&& i32::MIN <= min_int(a.1 as int, b.1 as int) - margin <= i32::MAX
    &&& i32::MIN <= max_int(a.0 as int, b.0 as int) + margin <= i32::MAX
    &&& i32::MIN <= max_int(a.1 as int, b.1 as int) + margin <= i32::MAX
}

impl Rect {
    pub fn new(left: i32, top: i32, right: i32, bottom: i32) -> (r: Rect)
        ensures
            r == (Rect { left, top, right, bottom }),
    {
        Rect { left, top, right, bottom }
    }

    /// A rectangle around two points, in any order, grown by `margin`.
    ///
    /// The margin is what keeps a thick line's own width inside the region it
    /// reports.
    pub fn around(a: (i32, i32), b: (i32, i32), margin: i32) -> (r: Rect)
        requires
            around_fits(a, b, margin),
        ensures
            r.left == min_int(a.0 as int, b.0 as int) - margin,
            r.top == min_int(a.1 as int, b.1 as int) - margin,
            r.right == max_int(a.0 as int, b.0 as int) + margin,
            r.bottom == max_int(a.1 as int, b.1 as int) + margin,
    {
        let min_x = if a.0 <= b.0 { a.0 } else { b.0 };
        let min_y = if a.1 <= b.1 { a.1 } else { b.1 };
        let max_x = if a.0 >= b.0 { a.0 } else { b.0 };
        let max_y = if a.1 >= b.1 { a.1 } else { b.1 };
        Rect { left: min_x - margin, top: min_y - margin, right: max_x + margin, bottom: max_y + margin }
    }

    pub fn is_empty(self) -> (res: bool)
        ensures
            res == rect_empty(self),
    {
        self.right <= self.left || self.bottom <= self.top
    }

    /// Widened before subtracting, not after: coordinates can reach both
    /// ends of `i32` at once, and neither a panic nor a negative area may come
    /// of it — a negative area would switch off the whole-screen fallback. The
    /// one area too large for an `i64` (a rectangle spanning nearly all of
    /// both axes) is reported as `i64::MAX`.
    pub fn area(self) -> (res: i64)
        ensures
            res == min_int(rect_area(self), i64::MAX as int),
            res >= 0,
    {
        if self.is_empty() {
            0
        } else {
            let w = self.right as i128 - self.left as i128;
            let h = self.bottom as i128 - self.top as i128;
            assert(0 < w <= 0xFFFF_FFFF && 0 < h <= 0xFFFF_FFFF);
            assert(w * h <= 0xFFFF_FFFF * 0xFFFF_FFFF) by (nonlinear_arith)
                requires
                    0 < w <= 0xFFFF_FFFF,
                    0 < h <= 0xFFFF_FFFF,
            ;
            assert(w * h > 0) by (nonlinear_arith)
                requires
                    0 < w,
                    0 < h,
            ;
            let a = w * h;
            if a > i64::MAX as i128 {
                i64::MAX
            } else {
                a as i64
            }
        }
    }

    fn union(self, other: Rect) -> (res: Rect)
        ensures
            res == rect_union(self, other),
    {
        Rect {
            left: if self.left <= other.left { self.left } else { other.left },
            top: if self.top <= other.top { self.top } else { other.top },
            right: if self.right >= other.right { self.right } else { other.right },
            bottom: if self.bottom >= other.bottom { self.bottom } else { other.bottom },
        }
    }

    /// Whether the two overlap, or sit close enough that merging them costs
    /// less than treating them separately.
    fn near(self, other: Rect, slack: i32) -> (res: bool)
        requires
            0 <= slack,
            self.left - slack >= i32::MIN,
            other.left - slack >= i32::MIN,
            self.top - slack >= i32::MIN,
            other.top - slack >= i32::MIN,
        ensures
            res == rect_near(self, other, slack as int),
    {
        self.left - slack < other.right && other.left - slack < self.right && self.top - slack
            < other.bottom && other.top - slack < self.bottom
    }

    fn clamp(self, width: i32, height: i32) -> (res: Rect)
        ensures
            res == rect_clamp(self, width, height),
    {
        Rect {
            left: if self.left >= 0 { self.left } else { 0 },
            top: if self.top >= 0 { self.top } else { 0 },
            right: if self.right <= width { self.right } else { width },
            bottom: if self.bottom <= height { self.bottom } else { height },
        }
    }
}

/// What a frame's marks amount to.
pub ghost struct DirtyView {
    pub regions: Seq<Rect>,
    pub everything: bool,
    pub width: i32,
    pub height: i32,
}

/// The regions one frame marked.
#[derive(Debug)]
pub struct Dirty {
    regions: Vec<Rect>,
    /// Set once the regions stop being worth tracking separately.
    everything: bool,
    /// The surface marks are clamped to. Zero until the size is known, which
    /// discards everything — correct, since there is no surface to draw on.
    width: i32,
    height: i32,
}

impl View for Dirty {
    type V = DirtyView;

    closed spec fn view(&self) -> DirtyView {
        DirtyView {
            regions: self.regions@,
            everything: self.everything,
            width: self.width,
            height: self.height,
        }
    }
}

/// The shape every frame's marks keep: at most [`MAX_REGIONS`] regions, none
/// of them empty, all inside the surface, and none at all once the whole
/// surface is marked.
pub open spec fn view_wf(v: DirtyView) -> bool {
    &&& v.regions.len() <= MAX_REGIONS
    &&& v.everything ==> v.regions.len() == 0
    &&& forall|i: int|
        0 <= i < v.regions.len() ==> !rect_empty(#[trigger] v.regions[i]) && rect_inside(
            v.regions[i],
            v.width as int,
            v.height as int,
        )
}

/// The first region at or after `i` that a mark is near, or the length when
/// there is none.
pub open spec fn first_near_from(regions: Seq<Rect>, mark: Rect, i: int) -> int
    decreases regions.len() - i,
{
    if i >= regions.len() || i < 0 {
        regions.len() as int
    } else if rect_near(regions[i], mark, MERGE_SLACK as int) {
        i
    } else {
        first_near_from(regions, mark, i + 1)
    }
}

/// The marks of a frame after one more rectangle was drawn on.
///
/// The rectangle is cut down to the surface first. An empty one, or any mark
/// once everything is marked, changes nothing. Otherwise it merges into the
/// first region it is near; failing that it is added as a region of its own,
/// unless there are already [`MAX_REGIONS`], in which case the whole surface
/// is marked instead.
pub open spec fn touched(v: DirtyView, rect: Rect) -> DirtyView {
    let mark = rect_clamp(rect, v.width, v.height);
    if v.everything || rect_empty(mark) {
        v
    } else {
        let i = first_near_from(v.regions, mark, 0);
        if i < v.regions.len() {
            DirtyView { regions: v.regions.update(i, rect_union(v.regions[i], mark)), ..v }
        } else if v.regions.len() >= MAX_REGIONS {
            DirtyView { regions: Seq::empty(), everything: true, ..v }
        } else {
            DirtyView { regions: v.regions.push(mark), ..v }
        }
    }
}

/// The marks after drawing each rectangle of `rects` in order.
pub open spec fn touched_all(v: DirtyView, rects: Seq<Rect>) -> DirtyView
    decreases rects.len(),
{
    if rects.len() == 0 {
        v
    } else {
        touched(touched_all(v, rects.drop_last()), rects.last())
    }
}

/// A frame's marks once the whole surface has been marked.
pub open spec fn everything_marked(v: DirtyView) -> DirtyView {
    DirtyView { regions: Seq::empty(), everything: true, ..v }
}

/// A fresh frame on a surface of this size.
pub open spec fn fresh(width: i32, height: i32) -> DirtyView {
    DirtyView { regions: Seq::empty(), everything: false, width, height }
}

/// The whole surface as one region.
pub open spec fn whole(width: i32, height: i32) -> Rect {
    Rect { left: 0, top: 0, right: width, bottom: height }
}

/// The pixels the regions cover between them, counting overlaps twice.
pub open spec fn sum_areas(regions: Seq<Rect>) -> int
    decreases regions.len(),
{
    if regions.len() == 0 {
        0
    } else {
        sum_areas(regions.drop_last()) + rect_area(regions.last())
    }
}

/// The regions to clear and copy for a frame, given the one before it.
///
/// The whole surface when either frame could not be tracked, when merging
/// both frames' marks gave up on tracking, or when the merged regions cover
/// at least [`FULL_SCREEN_SHARE`] per cent of the surface; otherwise the
/// merged regions themselves.
pub open spec fn combined_regions(now: DirtyView, before: DirtyView, width: i32, height: i32) -> Seq<
    Rect,
> {
    let all = whole(width, height);
    if now.everything || before.everything {
        seq![all]
    } else {
        let merged = touched_all(fresh(width, height), now.regions + before.regions);
        if merged.everything {
            seq![all]
        } else if sum_areas(merged.regions) * 100 >= rect_area(all) * FULL_SCREEN_SHARE {
            seq![all]
        } else {
            merged.regions
        }
    }
}

/// Whether some region covers the pixel `(x, y)`.
pub open spec fn covers(regions: Seq<Rect>, x: int, y: int) -> bool {
    exists|i: int| 0 <= i < regions.len() && rect_contains(#[trigger] regions[i], x, y)
}

/// Whether a frame's marks include the pixel `(x, y)`.
pub open spec fn marked(v: DirtyView, x: int, y: int) -> bool {
    v.everything || covers(v.regions, x, y)
}

impl Dirty {
    /// Every frame's marks keep the shape [`view_wf`] describes.
    #[verifier::type_invariant]
    spec fn wf(self) -> bool {
        view_wf(self@)
    }

    /// Start a new frame on a surface of this size.
    pub fn clear(&mut self, width: i32, height: i32)
        ensures
            final(self)@ == fresh(width, height),
    {
        self.regions = Vec::new();
        self.everything = false;
        self.width = width;
        self.height = height;
    }

    /// Mark the whole surface, for when none of it can be trusted.
    pub fn mark_everything(&mut self)
        ensures
            final(self)@ == everything_marked(old(self)@),
    {
        self.regions = Vec::new();
        self.everything = true;
    }

    pub fn is_everything(&self) -> (res: bool)
        ensures
            res == self@.everything,
    {
        self.everything
    }

    /// The first region a mark is near, or the number of regions when none is.
    fn first_near(regions: &Vec<Rect>, mark: Rect) -> (i: usize)
        requires
            forall|k: int|
                0 <= k < regions@.len() ==> (#[trigger] regions@[k]).left >= 0
                    && regions@[k].top >= 0,
            mark.left >= 0,
            mark.top >= 0,
        ensures
            i == first_near_from(regions@, mark, 0),
    {
        let mut i: usize = 0;
        while i < regions.len()
            invariant
                i <= regions@.len(),
                first_near_from(regions@, mark, 0) == first_near_from(regions@, mark, i as int),
                forall|k: int|
                    0 <= k < regions@.len() ==> (#[trigger] regions@[k]).left >= 0
                        && regions@[k].top >= 0,
                mark.left >= 0,
                mark.top >= 0,
            decreases regions@.len() - i,
        {
            if regions[i].near(mark, MERGE_SLACK) {
                return i;
            }
            i += 1;
        }
        i
    }

    /// Record that `rect` was drawn on.
    ///
    /// Clamped on the way in, not on the way out: a mark entirely past the
    /// edge has an enormous area and paints no pixels at all.
    pub fn touch(&mut self, rect: Rect)
        ensures
            final(self)@ == touched(old(self)@, rect),
    {
        proof {
            use_type_invariant(&*self);
            lemma_touched_keeps_shape(self@, rect);
        }
        let mark = rect.clamp(self.width, self.height);
        if self.everything || mark.is_empty() {
            return;
        }
        let i = Self::first_near(&self.regions, mark);
        if i < self.regions.len() {
            let merged = self.regions[i].union(mark);
            let mut regions = Vec::new();
            std::mem::swap(&mut regions, &mut self.regions);
            regions.set(i, merged);
            self.regions = regions;
            return;
        }
        if self.regions.len() >= MAX_REGIONS {
            self.regions = Vec::new();
            self.everything = true;
            return;
        }
        let mut regions = Vec::new();
        std::mem::swap(&mut regions, &mut self.regions);
        regions.push(mark);
        self.regions = regions;
    }

    /// The regions to clear and copy, given what the previous frame marked.
    ///
    /// Both frames' marks are included: this frame's so the new drawing
    /// appears, and the previous frame's so the old drawing is taken away.
    pub fn combined(&self, previous: &Dirty, width: i32, height: i32) -> (res: Vec<Rect>)
        ensures
            res@ == combined_regions(self@, previous@, width, height),
    {
        proof {
            use_type_invariant(self);
            use_type_invariant(previous);
        }
        let all = Rect::new(0, 0, width, height);
        if self.everything || previous.everything {
            return vec![all];
        }
        let ghost marks = self@.regions + previous@.regions;
        let mut merged = Dirty::default();
        merged.clear(width, height);
        let mut i: usize = 0;
        while i < self.regions.len()
            invariant
                i <= self@.regions.len(),
                view_wf(merged@),
                merged@ == touched_all(fresh(width, height), self@.regions.take(i as int)),
            decreases self@.regions.len() - i,
        {
            proof {
                lemma_touched_all_step(fresh(width, height), self@.regions, i as int);
            }
            merged.touch(self.regions[i]);
            proof {
                use_type_invariant(&merged);
            }
            i += 1;
        }
        proof {
            assert(self@.regions.take(i as int) =~= self@.regions);
            assert(self@.regions + previous@.regions.take(0) =~= self@.regions);
        }
        let mut j: usize = 0;
        while j < previous.regions.len()
            invariant
                j <= previous@.regions.len(),
                i == self@.regions.len(),
                view_wf(merged@),
                merged@ == touched_all(
                    fresh(width, height),
                    self@.regions + previous@.regions.take(j as int),
                ),
            decreases previous@.regions.len() - j,
        {
            proof {
                assert(self@.regions + previous@.regions.take(j + 1) =~= (self@.regions
                    + previous@.regions).take(i + j + 1));
                assert(self@.regions + previous@.regions.take(j as int) =~= (self@.regions
                    + previous@.regions).take(i + j));
                lemma_touched_all_step(
                    fresh(width, height),
                    self@.regions + previous@.regions,
                    i + j,
                );
            }
            merged.touch(previous.regions[j]);
            proof {
                use_type_invariant(&merged);
            }
            j += 1;
        }
        proof {
            assert(previous@.regions.take(j as int) =~= previous@.regions);
            lemma_touched_all_keeps_shape(fresh(width, height), marks);
        }
        if merged.everything {
            return vec![all];
        }
        let covered = sum_region_areas(&merged.regions, width, height);
        proof {
            lemma_whole_area(width, height);
        }
        let whole_area: i128 = if width > 0 && height > 0 {
            width as i128 * height as i128
        } else {
            0
        };
        if covered * 100 >= whole_area * (FULL_SCREEN_SHARE as i128) {
            return vec![all];
        }
        merged.regions.clone()
    }
}

/// The areas of regions inside a surface, added up.
fn sum_region_areas(regions: &Vec<Rect>, width: i32, height: i32) -> (res: i128)
    requires
        regions@.len() <= MAX_REGIONS,
        forall|i: int|
            0 <= i < regions@.len() ==> rect_inside(
                #[trigger] regions@[i],
                width as int,
                height as int,
            ),
    ensures
        res == sum_areas(regions@),
        0 <= res <= MAX_REGIONS * 0x4000_0000_0000_0000,
{
    let mut total: i128 = 0;
    let mut i: usize = 0;
    while i < regions.len()
        invariant
            i <= regions@.len(),
            regions@.len() <= MAX_REGIONS,
            forall|k: int|
                0 <= k < regions@.len() ==> rect_inside(
                    #[trigger] regions@[k],
                    width as int,
                    height as int,
                ),
            total == sum_areas(regions@.take(i as int)),
            0 <= total <= i * 0x4000_0000_0000_0000,
        decreases regions@.len() - i,
    {
        let r = regions[i];
        proof {
            lemma_inside_area_bounded(r, width as int, height as int);
            assert(regions@.take(i + 1).drop_last() =~= regions@.take(i as int));
        }
        let a: i128 = if r.is_empty() {
            0
        } else {
            (r.right as i128 - r.left as i128) * (r.bottom as i128 - r.top as i128)
        };
        total = total + a;
        i += 1;
    }
    proof {
        assert(regions@.take(i as int) =~= regions@);
    }
    total
}

impl Clone for Dirty {
    /// A copy with the same marks on the same surface.
    fn clone(&self) -> (d: Dirty)
        ensures
            d@ == self@,
    {
        proof {
            use_type_invariant(self);
        }
        Dirty {
            regions: self.regions.clone(),
            everything: self.everything,
            width: self.width,
            height: self.height,
        }
    }
}

impl Default for Dirty {
    fn default() -> (d: Dirty)
        ensures
            d@ == fresh(0, 0),
    {
        Dirty { regions: Vec::new(), everything: false, width: 0, height: 0 }
    }
}

/// The area of a rectangle inside a surface is at most `2^62`.
proof fn lemma_inside_area_bounded(r: Rect, width: int, height: int)
    requires
        rect_inside(r, width, height),
        width <= i32::MAX,
        height <= i32::MAX,
    ensures
        0 <= rect_area(r) <= 0x4000_0000_0000_0000,
{
    if !rect_empty(r) {
        let w = r.right - r.left;
        let h = r.bottom - r.top;
        assert(0 < w <= 0x8000_0000);
        assert(0 < h <= 0x8000_0000);
        assert(w * h <= 0x8000_0000 * 0x8000_0000) by (nonlinear_arith)
            requires
                0 < w <= 0x8000_0000,
                0 < h <= 0x8000_0000,
        ;
    }
}

proof fn lemma_whole_area(width: i32, height: i32)
    ensures
        rect_area(whole(width, height)) == (if width > 0 && height > 0 {
            width * height
        } else {
            0
        }),
        0 <= rect_area(whole(width, height)) <= 0x4000_0000_0000_0000,
{
    lemma_inside_area_bounded(whole(width, height), width as int, height as int);
}

proof fn lemma_touched_all_step(v: DirtyView, rects: Seq<Rect>, i: int)
    requires
        0 <= i < rects.len(),
    ensures
        touched_all(v, rects.take(i + 1)) == touched(touched_all(v, rects.take(i)), rects[i]),
{
    assert(rects.take(i + 1).drop_last() =~= rects.take(i));
}

proof fn lemma_first_near_from_bounds(regions: Seq<Rect>, mark: Rect, i: int)
    requires
        0 <= i <= regions.len(),
    ensures
        i <= first_near_from(regions, mark, i) <= regions.len(),
        first_near_from(regions, mark, i) < regions.len() ==> rect_near(
            regions[first_near_from(regions, mark, i)],
            mark,
            MERGE_SLACK as int,
        ),
        forall|k: int|
            i <= k < first_near_from(regions, mark, i) ==> !rect_near(
                #[trigger] regions[k],
                mark,
                MERGE_SLACK as int,
            ),
    decreases regions.len() - i,
{
    if i < regions.len() && !rect_near(regions[i], mark, MERGE_SLACK as int) {
        lemma_first_near_from_bounds(regions, mark, i + 1);
    }
}

/// Drawing on a frame keeps its shape: at most [`MAX_REGIONS`] regions, none
/// empty, all inside the surface, and none once everything is marked.
pub proof fn lemma_touched_keeps_shape(v: DirtyView, rect: Rect)
    requires
        view_wf(v),
    ensures
        view_wf(touched(v, rect)),
        touched(v, rect).width == v.width,
        touched(v, rect).height == v.height,
{
    let mark = rect_clamp(rect, v.width, v.height);
    if !(v.everything || rect_empty(mark)) {
        lemma_first_near_from_bounds(v.regions, mark, 0);
        let t = touched(v, rect);
        assert forall|k: int| 0 <= k < t.regions.len() implies !rect_empty(
            #[trigger] t.regions[k],
        ) && rect_inside(t.regions[k], t.width as int, t.height as int) by {
            if k < v.regions.len() {
                assert(!rect_empty(v.regions[k]));
            }
        }
    }
}

/// Drawing any sequence of rectangles keeps a frame's shape.
pub proof fn lemma_touched_all_keeps_shape(v: DirtyView, rects: Seq<Rect>)
    requires
        view_wf(v),
    ensures
        view_wf(touched_all(v, rects)),
        touched_all(v, rects).width == v.width,
        touched_all(v, rects).height == v.height,
    decreases rects.len(),
{
    if rects.len() > 0 {
        lemma_touched_all_keeps_shape(v, rects.drop_last());
        lemma_touched_keeps_shape(touched_all(v, rects.drop_last()), rects.last());
    }
}

/// Nothing drawn is ever lost: after drawing `rect`, every pixel the frame
/// marked before is still marked, and so is every pixel of `rect` that lies
/// on the surface.
pub proof fn lemma_touch_keeps_every_mark(v: DirtyView, rect: Rect, x: int, y: int)
    requires
        view_wf(v),
        marked(v, x, y) || rect_contains(rect_clamp(rect, v.width, v.height), x, y),
    ensures
        marked(touched(v, rect), x, y),
{
    let mark = rect_clamp(rect, v.width, v.height);
    let t = touched(v, rect);
    if v.everything {
    } else if rect_empty(mark) {
        assert(!rect_contains(mark, x, y));
    } else {
        lemma_first_near_from_bounds(v.regions, mark, 0);
        let i = first_near_from(v.regions, mark, 0);
        if i < v.regions.len() {
            if rect_contains(mark, x, y) {
                assert(rect_contains(t.regions[i], x, y));
            } else {
                let k = choose|k: int| 0 <= k < v.regions.len() && rect_contains(v.regions[k], x, y);
                if k == i {
                    assert(rect_contains(t.regions[i], x, y));
                } else {
                    assert(t.regions[k] == v.regions[k]);
                    assert(rect_contains(t.regions[k], x, y));
                }
            }
        } else if v.regions.len() >= MAX_REGIONS {
        } else {
            if rect_contains(mark, x, y) {
                assert(t.regions[v.regions.len() as int] == mark);
                assert(rect_contains(t.regions[v.regions.len() as int], x, y));
            } else {
                let k = choose|k: int| 0 <= k < v.regions.len() && rect_contains(v.regions[k], x, y);
                assert(t.regions[k] == v.regions[k]);
                assert(rect_contains(t.regions[k], x, y));
            }
        }
    }
}

/// Drawing a sequence of rectangles loses no mark either: every pixel marked
/// before, and every on-surface pixel of every rectangle drawn, is marked at
/// the end.
pub proof fn lemma_touched_all_keeps_every_mark(
    v: DirtyView,
    rects: Seq<Rect>,
    x: int,
    y: int,
)
    requires
        view_wf(v),
        marked(v, x, y) || exists|k: int|
            0 <= k < rects.len() && rect_contains(
                rect_clamp(#[trigger] rects[k], v.width, v.height),
                x,
                y,
            ),
    ensures
        marked(touched_all(v, rects), x, y),
    decreases rects.len(),
{
    if rects.len() > 0 {
        let before = touched_all(v, rects.drop_last());
        lemma_touched_all_keeps_shape(v, rects.drop_last());
        let last = rects.len() - 1;
        if marked(v, x, y) {
            lemma_touched_all_keeps_every_mark(v, rects.drop_last(), x, y);
            lemma_touch_keeps_every_mark(before, rects.last(), x, y);
        } else {
            let k = choose|k: int|
                0 <= k < rects.len() && rect_contains(
                    rect_clamp(#[trigger] rects[k], v.width, v.height),
                    x,
                    y,
                );
            if k < last {
                assert(rects.drop_last()[k] == rects[k]);
                lemma_touched_all_keeps_every_mark(v, rects.drop_last(), x, y);
            }
            lemma_touch_keeps_every_mark(before, rects.last(), x, y);
        }
    }
}

/// A region inside one surface, cut down to another, still holds every pixel
/// it held that lies on the second surface.
proof fn lemma_clamp_keeps_pixels(r: Rect, width: i32, height: i32, x: int, y: int)
    requires
        rect_contains(r, x, y),
        0 <= x < width,
        0 <= y < height,
    ensures
        rect_contains(rect_clamp(r, width, height), x, y),
{
}

/// The regions handed out for a frame lie inside the surface, number at most
/// [`MAX_REGIONS`] (one when the whole surface is taken), and cover every
/// pixel of the surface that either this frame or the previous one marked:
/// the new drawing appears and the old drawing is taken away.
pub proof fn lemma_combined_covers_both_frames(
    now: DirtyView,
    before: DirtyView,
    width: i32,
    height: i32,
    x: int,
    y: int,
)
    requires
        view_wf(now),
        view_wf(before),
        0 <= x < width,
        0 <= y < height,
        marked(now, x, y) || marked(before, x, y),
    ensures
        covers(combined_regions(now, before, width, height), x, y),
{
    let all = whole(width, height);
    if now.everything || before.everything {
        assert(rect_contains(seq![all][0], x, y));
    } else {
        let marks = now.regions + before.regions;
        let k = if covers(now.regions, x, y) {
            choose|k: int| 0 <= k < now.regions.len() && rect_contains(now.regions[k], x, y)
        } else {
            let k2 = choose|k: int|
                0 <= k < before.regions.len() && rect_contains(before.regions[k], x, y);
            now.regions.len() + k2
        };
        assert(rect_contains(marks[k], x, y));
        lemma_clamp_keeps_pixels(marks[k], width, height, x, y);
        lemma_touched_all_keeps_every_mark(fresh(width, height), marks, x, y);
        let merged = touched_all(fresh(width, height), marks);
        if merged.everything || sum_areas(merged.regions) * 100 >= rect_area(all)
            * FULL_SCREEN_SHARE {
            assert(rect_contains(seq![all][0], x, y));
        }
    }
}

/// Every region handed out for a frame lies inside the surface, and there are
/// never more than [`MAX_REGIONS`] of them.
pub proof fn lemma_combined_stays_on_the_surface(
    now: DirtyView,
    before: DirtyView,
    width: i32,
    height: i32,
)
    ensures
        combined_regions(now, before, width, height).len() <= MAX_REGIONS,
        forall|i: int|
            0 <= i < combined_regions(now, before, width, height).len() ==> rect_inside(
                #[trigger] combined_regions(now, before, width, height)[i],
                width as int,
                height as int,
            ),
{
    let marks = now.regions + before.regions;
    lemma_touched_all_keeps_shape(fresh(width, height), marks);
}

/// Whether two marks leave at least [`MERGE_SLACK`] pixels of clear space
/// between them, across or down.
pub open spec fn apart(a: Rect, b: Rect) -> bool {
    ||| a.right + MERGE_SLACK <= b.left
    ||| b.right + MERGE_SLACK <= a.left
    ||| a.bottom + MERGE_SLACK <= b.top
    ||| b.bottom + MERGE_SLACK <= a.top
}

/// Whether two rectangles share a pixel.
pub open spec fn share_a_pixel(a: Rect, b: Rect) -> bool {
    exists|x: int, y: int| rect_contains(a, x, y) && rect_contains(b, x, y)
}

/// Marks that are apart stay apart: drawing two non-empty marks on a fresh
/// surface, with at least [`MERGE_SLACK`] pixels between them across or
/// down, leaves two regions, each exactly one mark — never one box spanning
/// the gap.
pub proof fn lemma_marks_apart_stay_apart(a: Rect, b: Rect, width: i32, height: i32)
    requires
        !rect_empty(a),
        !rect_empty(b),
        rect_inside(a, width as int, height as int),
        rect_inside(b, width as int, height as int),
        apart(a, b),
    ensures
        touched(touched(fresh(width, height), a), b).regions == seq![a, b],
        !touched(touched(fresh(width, height), a), b).everything,
{
    let v1 = touched(fresh(width, height), a);
    assert(rect_clamp(a, width, height) == a);
    assert(rect_clamp(b, width, height) == b);
    assert(first_near_from(Seq::<Rect>::empty(), a, 0) == 0);
    assert(v1.regions =~= seq![a]);
    assert(!rect_near(a, b, MERGE_SLACK as int));
    assert(first_near_from(v1.regions, b, 1) == 1);
    assert(first_near_from(v1.regions, b, 0) == 1);
    assert(touched(v1, b).regions =~= seq![a, b]);
}

/// Marks that overlap become one region: drawing two non-empty marks that
/// share a pixel on a fresh surface leaves a single region, the smallest
/// rectangle holding both.
pub proof fn lemma_overlapping_marks_merge(a: Rect, b: Rect, width: i32, height: i32)
    requires
        !rect_empty(a),
        !rect_empty(b),
        rect_inside(a, width as int, height as int),
        rect_inside(b, width as int, height as int),
        share_a_pixel(a, b),
    ensures
        touched(touched(fresh(width, height), a), b).regions == seq![Rect {
            left: min_int(a.left as int, b.left as int) as i32,
            top: min_int(a.top as int, b.top as int) as i32,
            right: max_int(a.right as int, b.right as int) as i32,
            bottom: max_int(a.bottom as int, b.bottom as int) as i32,
        }],
{
    let v1 = touched(fresh(width, height), a);
    assert(rect_clamp(a, width, height) == a);
    assert(rect_clamp(b, width, height) == b);
    assert(first_near_from(Seq::<Rect>::empty(), a, 0) == 0);
    assert(v1.regions =~= seq![a]);
    let (x, y) = choose|x: int, y: int| rect_contains(a, x, y) && rect_contains(b, x, y);
    assert(rect_near(v1.regions[0], b, MERGE_SLACK as int));
    assert(first_near_from(v1.regions, b, 0) == 0);
    assert(touched(v1, b).regions =~= seq![rect_union(a, b)]);
}

/// The regions handed out for a frame whose two marks are apart, with no
/// frame before it, are the two marks themselves, unless together they cover
/// most of the surface.
pub proof fn lemma_combined_keeps_marks_apart(a: Rect, b: Rect, width: i32, height: i32)
    requires
        !rect_empty(a),
        !rect_empty(b),
        rect_inside(a, width as int, height as int),
        rect_inside(b, width as int, height as int),
        apart(a, b),
        (rect_area(a) + rect_area(b)) * 100 < rect_area(whole(width, height)) * FULL_SCREEN_SHARE,
    ensures
        combined_regions(touched(touched(fresh(width, height), a), b), fresh(0, 0), width, height)
            == seq![a, b],
{
    lemma_marks_apart_stay_apart(a, b, width, height);
    let now = touched(touched(fresh(width, height), a), b);
    let marks = now.regions + fresh(0, 0).regions;
    assert(marks =~= seq![a, b]);
    assert(marks.drop_last() =~= seq![a]);
    assert(marks.drop_last().drop_last() =~= Seq::<Rect>::empty());
    lemma_marks_apart_stay_apart(a, b, width, height);
    let merged = touched_all(fresh(width, height), marks);
    assert(touched_all(fresh(width, height), marks.drop_last().drop_last()) == fresh(width, height));
    assert(touched_all(fresh(width, height), marks.drop_last()) == touched(fresh(width, height), a));
    assert(merged == now);
    assert(merged.regions.drop_last() =~= seq![a]);
    assert(merged.regions.drop_last().drop_last() =~= Seq::<Rect>::empty());
    assert(sum_areas(merged.regions.drop_last().drop_last()) == 0);
    assert(sum_areas(merged.regions.drop_last()) == rect_area(a));
    assert(sum_areas(merged.regions) == rect_area(a) + rect_area(b));
}

} // verus!
