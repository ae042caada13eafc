//! What the overlay computes before it draws: where the game's client area
//! sits, when the window has to follow it, which colour value a pixel gets,
//! which parts of the surface a frame touched, and where a frame's drawing
//! time went.

pub mod dirty;

use vstd::prelude::*;

use dirty::{
    combined_regions, covers, everything_marked, fresh, lemma_combined_covers_both_frames,
    lemma_touched_all_keeps_every_mark, marked, max_int, min_int, rect_clamp, rect_contains,
    touched_all, view_wf, Dirty, DirtyView, Rect,
};

verus! {

/// Where the game's client area sits on screen.
#[derive(Clone, Copy, Debug, PartialEq, Eq, Structural)]
pub struct Bounds {
    pub x: i32,
    pub y: i32,
    pub width: i32,
    pub height: i32,
}

/// A colour packed the way GDI wants it, which is not the order it is
/// written: red in the low byte, then green, then blue.
pub open spec fn packed_rgb(r: u8, g: u8, b: u8) -> int {
    b * 0x1_0000 + g * 0x100 + r
}

/// A colour in the order GDI wants it, as the packed value of a `COLORREF`.
pub fn rgb(r: u8, g: u8, b: u8) -> (c: u32)
    ensures
        c == packed_rgb(r, g, b),
{
    let c = (b as u32) << 16 | (g as u32) << 8 | r as u32;
    assert(c == b * 0x1_0000 + g * 0x100 + r) by (bit_vector)
        requires
            c == (b as u32) << 16 | (g as u32) << 8 | r as u32,
    ;
    c
}

/// Each channel is recovered from the packed value, so no two colours pack
/// alike: red from the low byte, green from the next, blue from the third.
pub proof fn lemma_channels_are_recovered(r: u8, g: u8, b: u8)
    ensures
        packed_rgb(r, g, b) % 0x100 == r,
        (packed_rgb(r, g, b) / 0x100) % 0x100 == g,
        packed_rgb(r, g, b) / 0x1_0000 == b,
        packed_rgb(r, g, b) < 0x100_0000,
{
}

/// Another always-on-top window can be raised above the overlay at any time,
/// so the topmost claim is repeated — but only this often, in milliseconds,
/// when nothing has moved.
pub const TOPMOST_INTERVAL_MS: u128 = 250;

/// What keeping the overlay over the game takes this pass.
#[derive(Clone, Copy, Debug, PartialEq, Eq, Structural)]
pub enum Follow {
    /// The game is gone, or nothing moved and the last claim is recent.
    Nothing,
    /// Nothing moved, but the topmost claim is due again: repeat it without
    /// moving or resizing.
    Reassert,
    /// The game's client area moved or changed size: move there, which makes
    /// the topmost claim as well.
    Move(Bounds),
}

/// The decision [`follow`] makes.
pub open spec fn follow_spec(current: Bounds, target: Option<Bounds>, since_claim_ms: Option<u128>) -> Follow {
    match target {
        None => Follow::Nothing,
        Some(b) => if b != current {
            Follow::Move(b)
        } else if since_claim_ms is None || since_claim_ms->0 >= TOPMOST_INTERVAL_MS {
            Follow::Reassert
        } else {
            Follow::Nothing
        },
    }
}

/// Keep the overlay over the game, and on top of it.
///
/// `target` is where the game's client area is now, `None` when it cannot be
/// read; `since_claim_ms` is how long ago the topmost claim was last made,
/// `None` when it never was. Moving is a conversation with the window manager
/// that occasionally blocks, so it is only done when the game moved; the
/// claim alone is repeated every [`TOPMOST_INTERVAL_MS`]. Whatever is not
/// [`Follow::Nothing`] makes the claim, and so restarts its timer.
pub fn follow(current: Bounds, target: Option<Bounds>, since_claim_ms: Option<u128>) -> (f: Follow)
    ensures
        f == follow_spec(current, target, since_claim_ms),
{
    match target {
        None => Follow::Nothing,
        Some(b) => {
            if b != current {
                Follow::Move(b)
            } else {
                match since_claim_ms {
                    None => Follow::Reassert,
                    Some(ms) => if ms >= TOPMOST_INTERVAL_MS {
                        Follow::Reassert
                    } else {
                        Follow::Nothing
                    },
                }
            }
        },
    }
}

#[verifier::external_type_specification]
#[verifier::external_body]
pub struct ExInstant(std::time::Instant);

/// `Instant::elapsed`: the time from `at` until now. It depends on the clock,
/// so nothing is promised of it.
#[verifier::external_body]
fn elapsed_since(at: &std::time::Instant) -> std::time::Duration {
    at.elapsed()
}

/// `Duration::as_millis`: the whole milliseconds a duration holds. Nothing is
/// stated of it: the duration has no view to state it over.
#[verifier::external_body]
fn whole_millis(d: std::time::Duration) -> u128 {
    d.as_millis()
}

/// The follow decision for this pass, reading the clock for the time since
/// the last claim. Whatever the clock says, the game being gone means doing
/// nothing, a move is answered by moving there, and a claim never made is
/// made now.
pub fn follow_target(current: Bounds, target: Option<Bounds>, claimed_at: Option<std::time::Instant>) -> (f: Follow)
    ensures
        target is None ==> f == Follow::Nothing,
        target is Some && target->0 != current ==> f == Follow::Move(target->0),
        target == Some(current) && claimed_at is None ==> f == Follow::Reassert,
        target == Some(current) ==> !(f is Move),
{
    let since = match claimed_at {
        None => None,
        Some(at) => Some(whole_millis(elapsed_since(&at))),
    };
    follow(current, target, since)
}

/// The overlay's state after following the game for one pass: what was
/// done, the bounds it now covers, and when the topmost claim was last made.
pub open spec fn followed_spec(
    current: Bounds,
    claimed_at_ms: Option<u64>,
    target: Option<Bounds>,
    now_ms: u64,
) -> (Follow, Bounds, Option<u64>) {
    let since = match claimed_at_ms {
        None => None,
        Some(at) => Some(if now_ms >= at { (now_ms - at) as u128 } else { 0u128 }),
    };
    let f = follow_spec(current, target, since);
    (
        f,
        match f {
            Follow::Move(b) => b,
            _ => current,
        },
        if f is Nothing {
            claimed_at_ms
        } else {
            Some(now_ms)
        },
    )
}

/// One pass of keeping the overlay over the game, on a millisecond clock.
///
/// A move takes the new bounds; a move and a re-claim both make the topmost
/// claim, so both restart its timer — leaving it stale would fire a second,
/// redundant claim right behind every move. A clock that reads earlier than
/// the last claim counts as no time having passed.
pub fn followed(current: Bounds, claimed_at_ms: Option<u64>, target: Option<Bounds>, now_ms: u64) -> (r: (
    Follow,
    Bounds,
    Option<u64>,
))
    ensures
        r == followed_spec(current, claimed_at_ms, target, now_ms),
{
    let since = match claimed_at_ms {
        None => None,
        Some(at) => Some(if now_ms >= at { (now_ms - at) as u128 } else { 0u128 }),
    };
    let f = follow(current, target, since);
    let bounds = match f {
        Follow::Move(b) => b,
        _ => current,
    };
    let claimed = match f {
        Follow::Nothing => claimed_at_ms,
        _ => Some(now_ms),
    };
    (f, bounds, claimed)
}

/// After any pass the overlay covers where the game is whenever the game
/// could be read, and a claim made this pass holds off the next one for the
/// whole interval.
pub proof fn lemma_followed_hands_over(
    current: Bounds,
    claimed_at_ms: Option<u64>,
    target: Option<Bounds>,
    now_ms: u64,
    later_ms: u64,
)
    ensures
        target is Some ==> followed_spec(current, claimed_at_ms, target, now_ms).1 == target->0,
        target is None ==> followed_spec(current, claimed_at_ms, target, now_ms) == (
        Follow::Nothing,
        current,
        claimed_at_ms,
        ),
        ({
            let (f, b, c) = followed_spec(current, claimed_at_ms, target, now_ms);
            !(f is Nothing) && now_ms <= later_ms && later_ms - now_ms < TOPMOST_INTERVAL_MS ==> followed_spec(
                b,
                c,
                Some(b),
                later_ms,
            ).0 is Nothing
        }),
{
}

/// The topmost claim is repeated exactly when it is due: with the game where
/// the overlay already is, a claim [`TOPMOST_INTERVAL_MS`] old or older is
/// always repeated, and a younger one never is. A claim made at one time is
/// due again at every time at least the interval later.
pub proof fn lemma_claim_repeats_once_due(current: Bounds, ms: u128, at: u64, now: u64)
    ensures
        ms >= TOPMOST_INTERVAL_MS ==> follow_spec(current, Some(current), Some(ms)) == Follow::Reassert,
        ms < TOPMOST_INTERVAL_MS ==> follow_spec(current, Some(current), Some(ms)) == Follow::Nothing,
        follow_spec(current, Some(current), None) == Follow::Reassert,
        now >= at + TOPMOST_INTERVAL_MS ==> followed_spec(current, Some(at), Some(current), now)
            == (Follow::Reassert, current, Some(now)),
{
}

/// A decision to move always moves to where the game is now, and only a
/// changed client area moves the window; an unchanged one is at most
/// re-claimed, and only once the interval has passed.
pub proof fn lemma_follow_moves_only_when_the_game_moved(
    current: Bounds,
    target: Option<Bounds>,
    since_claim_ms: Option<u128>,
)
    ensures
        follow_spec(current, target, since_claim_ms) matches Follow::Move(b) ==> target == Some(b)
            && b != current,
        follow_spec(current, target, since_claim_ms) is Reassert ==> target == Some(current) && (
        since_claim_ms is None || since_claim_ms->0 >= TOPMOST_INTERVAL_MS),
        target == Some(current) && since_claim_ms is Some && since_claim_ms->0 < TOPMOST_INTERVAL_MS
            ==> follow_spec(current, target, since_claim_ms) is Nothing,
{
}

/// A stage of drawing one frame.
#[derive(Clone, Copy, Debug, PartialEq, Eq, Structural)]
pub enum Stage {
    /// Filling the surface with the key colour.
    Clear,
    /// Whatever the caller drew: pens, lines, text.
    Paint,
    /// Copying the finished surface to the window.
    Blit,
    /// Reusing the off-screen surface, or building it when the size changed.
    Buffer,
    /// Getting and releasing the window's drawing context.
    Surface,
}

/// Where a frame's drawing time went, in nanoseconds per stage.
#[derive(Clone, Copy, Debug, PartialEq, Eq, Structural)]
pub struct FrameCost {
    pub surface: u64,
    pub buffer: u64,
    pub clear: u64,
    pub paint: u64,
    pub blit: u64,
    /// How many separate regions that took. One means the whole screen.
    pub regions: usize,
}

/// The stages in the order the breakdown lists them before sorting, with
/// what each took.
pub open spec fn stage_rows(c: FrameCost) -> Seq<(Stage, u64)> {
    seq![
        (Stage::Clear, c.clear),
        (Stage::Paint, c.paint),
        (Stage::Blit, c.blit),
        (Stage::Buffer, c.buffer),
        (Stage::Surface, c.surface),
    ]
}

/// Whether `rows` is `stage_rows(c)` reordered worst first, with stages that
/// took equally long kept in their listed order.
pub open spec fn worst_first(c: FrameCost, rows: Seq<(Stage, u64)>) -> bool {
    let listed = stage_rows(c);
    &&& rows.len() == listed.len()
    &&& exists|perm: Seq<int>|
        #![trigger perm.len()]
        perm.len() == listed.len() && (forall|i: int|
            0 <= i < rows.len() ==> 0 <= #[trigger] perm[i] < listed.len() && rows[i]
                == listed[perm[i]]) && (forall|i: int, j: int|
            0 <= i < j < rows.len() ==> perm[i] != perm[j]) && (forall|i: int, j: int|
            0 <= i < j < rows.len() ==> rows[i].1 > rows[j].1 || (rows[i].1 == rows[j].1 && perm[i]
                < perm[j]))
}

impl FrameCost {
    /// The whole frame's drawing time, in nanoseconds.
    pub fn total(self) -> (t: u128)
        ensures
            t == self.surface + self.buffer + self.clear + self.paint + self.blit,
    {
        self.surface as u128 + self.buffer as u128 + self.clear as u128 + self.paint as u128
            + self.blit as u128
    }

    /// The stages, worst first, each with what it took. Stages that took
    /// equally long keep the order clear, paint, blit, buffer, surface.
    pub fn stages_worst_first(self) -> (rows: Vec<(Stage, u64)>)
        ensures
            worst_first(self, rows@),
    {
        let listed = vec![
            (Stage::Clear, self.clear),
            (Stage::Paint, self.paint),
            (Stage::Blit, self.blit),
            (Stage::Buffer, self.buffer),
            (Stage::Surface, self.surface),
        ];
        let mut order: Vec<usize> = Vec::new();
        let mut i: usize = 0;
        while i < 5
            invariant
                i <= 5,
                listed@ == stage_rows(self),
                order@.len() == i,
                forall|a: int| 0 <= a < order@.len() ==> (#[trigger] order@[a]) < i,
                forall|a: int, b: int| 0 <= a < b < order@.len() ==> order@[a] != order@[b],
                forall|a: int, b: int|
                    0 <= a < b < order@.len() ==> listed@[order@[a] as int].1 > listed@[order@[b] as int].1
                        || (listed@[order@[a] as int].1 == listed@[order@[b] as int].1 && order@[a]
                        < order@[b]),
            decreases 5 - i,
        {
            // Insert `i` after every earlier stage that took at least as long.
            let t = listed[i].1;
            let mut pos: usize = 0;
            while pos < order.len() && listed[order[pos]].1 >= t
                invariant
                    pos <= order@.len(),
                    order@.len() == i,
                    i < 5,
                    listed@ == stage_rows(self),
                    t == listed@[i as int].1,
                    forall|a: int| 0 <= a < order@.len() ==> (#[trigger] order@[a]) < i,
                    forall|a: int| 0 <= a < pos ==> listed@[(#[trigger] order@[a]) as int].1 >= t,
                decreases order@.len() - pos,
            {
                pos += 1;
            }
            proof {
                // Everything from `pos` on took strictly less than `t`.
                assert forall|a: int| pos <= a < order@.len() implies listed@[(#[trigger] order@[a]) as int].1 < t by {
                    if a > pos {
                        assert(listed@[order@[pos as int] as int].1 > listed@[order@[a] as int].1
                            || listed@[order@[pos as int] as int].1 == listed@[order@[a] as int].1);
                    }
                }
            }
            order.insert(pos, i);
            i += 1;
        }
        let mut rows: Vec<(Stage, u64)> = Vec::new();
        let mut k: usize = 0;
        while k < 5
            invariant
                k <= 5,
                order@.len() == 5,
                listed@ == stage_rows(self),
                forall|a: int| 0 <= a < order@.len() ==> (#[trigger] order@[a]) < 5,
                rows@.len() == k,
                forall|a: int| 0 <= a < k ==> #[trigger] rows@[a] == listed@[order@[a] as int],
            decreases 5 - k,
        {
            rows.push(listed[order[k]]);
            k += 1;
        }
        proof {
            let perm = order@.map_values(|o: usize| o as int);
            assert(perm.len() == stage_rows(self).len());
            assert(worst_first(self, rows@));
        }
        rows
    }
}

/// The game's drawable area on screen, from its client rectangle and the
/// screen position of the rectangle's origin: `None` unless it has a width
/// and a height, since an overlay over nothing draws nothing.
pub open spec fn client_bounds_spec(x: i32, y: i32, client: Rect) -> Option<Bounds> {
    let width = client.right - client.left;
    let height = client.bottom - client.top;
    if width > 0 && height > 0 {
        Some(Bounds { x, y, width: width as i32, height: height as i32 })
    } else {
        None
    }
}

/// The game's drawable area on screen, given its client rectangle and where
/// that rectangle's origin lands on the screen.
pub fn client_bounds(x: i32, y: i32, client: Rect) -> (b: Option<Bounds>)
    requires
        i32::MIN <= client.right - client.left <= i32::MAX,
        i32::MIN <= client.bottom - client.top <= i32::MAX,
    ensures
        b == client_bounds_spec(x, y, client),
{
    let width = client.right - client.left;
    let height = client.bottom - client.top;
    if width > 0 && height > 0 {
        Some(Bounds { x, y, width, height })
    } else {
        None
    }
}

/// How far past its path a line drawn with a pen of this width may paint:
/// half the width either side, rounded towards zero, and one pixel more for
/// the end caps.
pub open spec fn line_margin(width: i32) -> int {
    if width >= 0 {
        width / 2 + 1
    } else {
        -((-width) / 2) + 1
    }
}

/// The mark a line leaves: the rectangle around its endpoints, grown by
/// [`line_margin`].
pub open spec fn line_mark_spec(from: (i32, i32), to: (i32, i32), width: i32) -> Rect {
    Rect {
        left: (min_int(from.0 as int, to.0 as int) - line_margin(width)) as i32,
        top: (min_int(from.1 as int, to.1 as int) - line_margin(width)) as i32,
        right: (max_int(from.0 as int, to.0 as int) + line_margin(width)) as i32,
        bottom: (max_int(from.1 as int, to.1 as int) + line_margin(width)) as i32,
    }
}

pub open spec fn line_mark_fits(from: (i32, i32), to: (i32, i32), width: i32) -> bool {
    &&& i32::MIN <= min_int(from.0 as int, to.0 as int) - line_margin(width) <= i32::MAX
    &&& i32::MIN <= min_int(from.1 as int, to.1 as int) - line_margin(width) <= i32::MAX
    &&& i32::MIN <= max_int(from.0 as int, to.0 as int) + line_margin(width) <= i32::MAX
    &&& i32::MIN <= max_int(from.1 as int, to.1 as int) + line_margin(width) <= i32::MAX
}

/// The region a line drawn with a pen of this width touches. A pen paints
/// half its width either side of the path, and a rounded end cap reaches a
/// little past each endpoint; one extra pixel covers both.
pub fn line_mark(from: (i32, i32), to: (i32, i32), width: i32) -> (r: Rect)
    requires
        line_mark_fits(from, to, width),
    ensures
        r == line_mark_spec(from, to, width),
{
    let half: i32 = if width >= 0 {
        width / 2
    } else {
        let w = width as i64;
        (-((-w) / 2)) as i32
    };
    assert(half + 1 == line_margin(width));
    Rect::around(from, to, half + 1)
}

/// A line's mark holds every pixel a pen of that width can paint: each
/// pixel within half the width of the box between the endpoints, including
/// the last one on each side.
pub proof fn lemma_line_mark_holds_the_pen(from: (i32, i32), to: (i32, i32), width: i32, x: int, y: int)
    requires
        width >= 0,
        min_int(from.0 as int, to.0 as int) - width / 2 <= x <= max_int(from.0 as int, to.0 as int) + width / 2,
        min_int(from.1 as int, to.1 as int) - width / 2 <= y <= max_int(from.1 as int, to.1 as int) + width / 2,
        line_mark_fits(from, to, width),
    ensures
        rect_contains(line_mark_spec(from, to, width), x, y),
{
}

/// The four sides of a box, in drawing order: top, right, bottom, left.
pub open spec fn box_sides(x: i32, y: i32, width: i32, height: i32) -> Seq<((i32, i32), (i32, i32))> {
    let right = (x + width) as i32;
    let bottom = (y + height) as i32;
    seq![((x, y), (right, y)), ((right, y), (right, bottom)), ((right, bottom), (x, bottom)), ((x, bottom), (x, y))]
}

/// The marks the four sides of a box drawn with a pen of this thickness
/// leave, one per side in drawing order.
pub fn box_marks(x: i32, y: i32, width: i32, height: i32, thickness: i32) -> (marks: Vec<Rect>)
    requires
        i32::MIN <= x + width <= i32::MAX,
        i32::MIN <= y + height <= i32::MAX,
        forall|i: int| 0 <= i < 4 ==> line_mark_fits(#[trigger] box_sides(x, y, width, height)[i].0, box_sides(x, y, width, height)[i].1, thickness),
    ensures
        marks@.len() == 4,
        forall|i: int|
            0 <= i < 4 ==> #[trigger] marks@[i] == line_mark_spec(
                box_sides(x, y, width, height)[i].0,
                box_sides(x, y, width, height)[i].1,
                thickness,
            ),
{
    let right = x + width;
    let bottom = y + height;
    let ghost sides = box_sides(x, y, width, height);
    assert(line_mark_fits(sides[0].0, sides[0].1, thickness));
    assert(line_mark_fits(sides[1].0, sides[1].1, thickness));
    assert(line_mark_fits(sides[2].0, sides[2].1, thickness));
    assert(line_mark_fits(sides[3].0, sides[3].1, thickness));
    let mut marks: Vec<Rect> = Vec::new();
    marks.push(line_mark((x, y), (right, y), thickness));
    marks.push(line_mark((right, y), (right, bottom), thickness));
    marks.push(line_mark((right, bottom), (x, bottom), thickness));
    marks.push(line_mark((x, bottom), (x, y), thickness));
    assert forall|i: int| 0 <= i < 4 implies #[trigger] marks@[i] == line_mark_spec(sides[i].0, sides[i].1, thickness) by {}
    marks
}

/// The mark a line of text leaves, given the extent the font reports for
/// it: its width and two pixels more, and its height (never under twenty)
/// and two pixels more.
pub fn text_mark(x: i32, y: i32, extent_width: i32, extent_height: i32) -> (r: Rect)
    requires
        i32::MIN <= x + extent_width <= i32::MAX,
        i32::MIN <= x + extent_width + 2 <= i32::MAX,
        i32::MIN <= y + max_int(extent_height as int, 20) + 2 <= i32::MAX,
    ensures
        r == (Rect {
            left: x,
            top: y,
            right: (x + extent_width + 2) as i32,
            bottom: (y + max_int(extent_height as int, 20) + 2) as i32,
        }),
{
    let h = if extent_height >= 20 { extent_height } else { 20 };
    Rect::new(x, y, x + extent_width + 2, y + h + 2)
}

/// The width a line of text is taken to have: what the font measured, or,
/// when it could not, sixteen pixels for each UTF-16 unit. A guess that is
/// short would leave the tail of a line on screen after it changes.
pub fn text_width(measured: Option<i32>, units: usize) -> (w: i32)
    requires
        units * 16 <= i32::MAX,
    ensures
        w == (match measured {
            Some(m) => m as int,
            None => units * 16,
        }),
{
    match measured {
        Some(m) => m,
        None => units as i32 * 16,
    }
}

/// The marks the frame before this one left, once a rebuilt surface has
/// marked everything.
pub open spec fn frame_before(previous: DirtyView, rebuilt: bool) -> DirtyView {
    if rebuilt {
        everything_marked(previous)
    } else {
        previous
    }
}

/// The regions to fill with the key colour before painting: whatever the
/// frame before left behind.
pub open spec fn frame_clear(previous: DirtyView, rebuilt: bool, width: i32, height: i32) -> Seq<Rect> {
    combined_regions(frame_before(previous, rebuilt), fresh(0, 0), width, height)
}

/// The regions to copy to the window after painting: this frame's marks
/// merged with the frame before's.
pub open spec fn frame_copy(
    previous: DirtyView,
    rebuilt: bool,
    marks: Seq<Rect>,
    width: i32,
    height: i32,
) -> Seq<Rect> {
    combined_regions(
        touched_all(fresh(width, height), marks),
        frame_before(previous, rebuilt),
        width,
        height,
    )
}

/// What one frame clears and copies.
pub struct FrameRegions {
    /// Filled with the key colour before painting.
    pub clear: Vec<Rect>,
    /// Copied to the window after painting.
    pub copy: Vec<Rect>,
}

/// One frame's regions, and the hand-over to the next.
///
/// A surface that was just rebuilt holds nothing trustworthy, so the frame
/// before is taken to have marked everything. What that frame left is
/// cleared first; this frame's `marks` are what it painted; both frames'
/// marks are copied to the window; and this frame's marks become the frame
/// before for the next one.
pub fn frame_regions(
    previous: &mut Dirty,
    rebuilt: bool,
    marks: &Vec<Rect>,
    width: i32,
    height: i32,
) -> (r: FrameRegions)
    ensures
        r.clear@ == frame_clear(old(previous)@, rebuilt, width, height),
        r.copy@ == frame_copy(old(previous)@, rebuilt, marks@, width, height),
        final(previous)@ == touched_all(fresh(width, height), marks@),
{
    if rebuilt {
        previous.mark_everything();
    }
    let stale = previous.combined(&Dirty::default(), width, height);
    let mut now = Dirty::default();
    now.clear(width, height);
    let mut i: usize = 0;
    while i < marks.len()
        invariant
            i <= marks@.len(),
            now@ == touched_all(fresh(width, height), marks@.take(i as int)),
        decreases marks@.len() - i,
    {
        proof {
            assert(marks@.take(i + 1).drop_last() =~= marks@.take(i as int));
        }
        now.touch(marks[i]);
        i += 1;
    }
    proof {
        assert(marks@.take(i as int) =~= marks@);
    }
    let copy = now.combined(previous, width, height);
    *previous = now;
    FrameRegions { clear: stale, copy }
}

/// A rebuilt surface is cleared and copied whole: nothing on a new bitmap is
/// the key colour yet, so no part of it may be left alone.
pub proof fn lemma_rebuilt_surface_is_repainted_whole(
    previous: DirtyView,
    marks: Seq<Rect>,
    width: i32,
    height: i32,
)
    ensures
        frame_clear(previous, true, width, height) == seq![Rect { left: 0, top: 0, right: width, bottom: height }],
        frame_copy(previous, true, marks, width, height) == seq![Rect { left: 0, top: 0, right: width, bottom: height }],
{
}

/// Nothing a frame paints is left off the window, and nothing the frame
/// before painted stays on it: every on-surface pixel of this frame's marks
/// is copied, and every on-surface pixel the frame before marked is both
/// cleared and copied.
pub proof fn lemma_frame_hands_every_mark_over(
    previous: DirtyView,
    rebuilt: bool,
    marks: Seq<Rect>,
    width: i32,
    height: i32,
    x: int,
    y: int,
)
    requires
        view_wf(previous),
        0 <= x < width,
        0 <= y < height,
    ensures
        (exists|k: int| 0 <= k < marks.len() && rect_contains(#[trigger] marks[k], x, y)) ==> covers(
            frame_copy(previous, rebuilt, marks, width, height),
            x,
            y,
        ),
        marked(previous, x, y) ==> covers(frame_copy(previous, rebuilt, marks, width, height), x, y)
            && covers(frame_clear(previous, rebuilt, width, height), x, y),
{
    let before = frame_before(previous, rebuilt);
    assert(view_wf(before));
    let start = fresh(width, height);
    assert(view_wf(start));
    dirty::lemma_touched_all_keeps_shape(start, marks);
    let now = touched_all(start, marks);
    if exists|k: int| 0 <= k < marks.len() && rect_contains(#[trigger] marks[k], x, y) {
        let k = choose|k: int| 0 <= k < marks.len() && rect_contains(#[trigger] marks[k], x, y);
        assert(rect_contains(rect_clamp(marks[k], width, height), x, y));
        lemma_touched_all_keeps_every_mark(start, marks, x, y);
        lemma_combined_covers_both_frames(now, before, width, height, x, y);
    }
    if marked(previous, x, y) {
        assert(marked(before, x, y));
        lemma_combined_covers_both_frames(now, before, width, height, x, y);
        assert(view_wf(fresh(0, 0)));
        lemma_combined_covers_both_frames(before, fresh(0, 0), width, height, x, y);
    }
}

} // verus!
