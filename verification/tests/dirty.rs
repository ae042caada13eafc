use echo::overlay::dirty::{Dirty, Rect, MAX_REGIONS};

const W: i32 = 2048;
const H: i32 = 1152;

fn dirty(rects: &[Rect]) -> Dirty {
    let mut dirty = Dirty::default();
    dirty.clear(W, H);
    for rect in rects {
        dirty.touch(*rect);
    }
    dirty
}

fn empty() -> Dirty {
    let mut dirty = Dirty::default();
    dirty.clear(W, H);
    dirty
}

#[test]
fn the_sides_of_one_box_become_one_region() {
    // Four lines, drawn as a box would draw them.
    let box_ = dirty(&[
        Rect::around((100, 100), (300, 100), 1),
        Rect::around((300, 100), (300, 500), 1),
        Rect::around((300, 500), (100, 500), 1),
        Rect::around((100, 500), (100, 100), 1),
    ]);
    let regions = box_.combined(&empty(), W, H);
    assert_eq!(regions, vec![Rect::new(99, 99, 301, 501)]);
}

#[test]
fn marks_far_apart_stay_apart_rather_than_spanning_the_gap() {
    let corners = dirty(&[Rect::new(0, 0, 100, 100), Rect::new(W - 100, H - 100, W, H)]);
    let regions = corners.combined(&empty(), W, H);
    assert_eq!(regions.len(), 2, "a bounding box would cover the screen");
}

#[test]
fn the_previous_frames_marks_are_included_so_old_drawing_is_taken_away() {
    let now = dirty(&[Rect::new(500, 500, 600, 600)]);
    let before = dirty(&[Rect::new(100, 100, 200, 200)]);

    let regions = now.combined(&before, W, H);
    assert!(regions.contains(&Rect::new(500, 500, 600, 600)), "the new");
    assert!(
        regions.contains(&Rect::new(100, 100, 200, 200)),
        "the old, without which it would stay on screen"
    );
}

#[test]
fn regions_are_clamped_to_the_surface() {
    // A player at the edge of the screen reports marks past it.
    let edge = dirty(&[
        Rect::new(-50, -50, 50, 50),
        Rect::new(W - 10, H - 10, W + 90, H + 90),
    ]);
    for region in edge.combined(&empty(), W, H) {
        assert!(region.left >= 0 && region.top >= 0, "{region:?}");
        assert!(region.right <= W && region.bottom <= H, "{region:?}");
    }
}

#[test]
fn enough_scattered_marks_fall_back_to_one_whole_screen_region() {
    // More separate marks than are worth tracking.
    let mut many = empty();
    for index in 0..(MAX_REGIONS as i32 + 5) {
        let x = index * 60;
        many.touch(Rect::new(x, 0, x + 10, 10));
    }
    assert_eq!(many.combined(&empty(), W, H), vec![Rect::new(0, 0, W, H)]);
}

#[test]
fn marks_covering_most_of_the_screen_fall_back_rather_than_paying_per_region() {
    let wide = dirty(&[
        Rect::new(0, 0, W, H / 2 - 100),
        Rect::new(0, H / 2 + 100, W, H),
    ]);
    assert_eq!(wide.combined(&empty(), W, H), vec![Rect::new(0, 0, W, H)]);
}

#[test]
fn a_surface_that_cannot_be_trusted_is_repainted_whole() {
    // The state after the bitmap is built: nothing on it is the key
    // colour yet, so anything left alone would cover the game.
    let mut untrusted = empty();
    untrusted.mark_everything();

    let small = dirty(&[Rect::new(10, 10, 20, 20)]);
    assert_eq!(
        small.combined(&untrusted, W, H),
        vec![Rect::new(0, 0, W, H)],
        "one small mark this frame must not leave the rest untouched"
    );
    assert_eq!(
        untrusted.combined(&empty(), W, H),
        vec![Rect::new(0, 0, W, H)]
    );
}

#[test]
fn a_frame_that_drew_nothing_after_a_frame_that_did_still_clears_the_old_marks() {
    let nothing = empty();
    let before = dirty(&[Rect::new(100, 100, 200, 200)]);
    assert_eq!(
        nothing.combined(&before, W, H),
        vec![Rect::new(100, 100, 200, 200)]
    );
}

#[test]
fn around_orders_the_points_and_grows_by_the_margin() {
    assert_eq!(Rect::around((300, 500), (100, 100), 2), Rect::new(98, 98, 302, 502));
    assert_eq!(Rect::around((5, 5), (5, 5), 0), Rect::new(5, 5, 5, 5));
    assert!(Rect::around((5, 5), (5, 5), 0).is_empty());
    assert!(!Rect::around((5, 5), (5, 5), 1).is_empty());
}

#[test]
fn area_is_width_times_height_and_zero_when_empty() {
    assert_eq!(Rect::new(0, 0, 10, 20).area(), 200);
    assert_eq!(Rect::new(10, 0, 0, 20).area(), 0);
    assert_eq!(Rect::new(0, 20, 10, 20).area(), 0);
    // Widened before subtracting: a span across both ends of i32 is exact.
    assert_eq!(
        Rect::new(i32::MIN, 0, i32::MAX, 1).area(),
        u32::MAX as i64
    );
    assert_eq!(
        Rect::new(i32::MIN, i32::MIN, 0, 0).area(),
        1i64 << 62
    );
}

#[test]
fn a_mark_entirely_off_the_surface_paints_nothing() {
    let off = dirty(&[Rect::new(W + 10, H + 10, W + 5000, H + 5000)]);
    assert!(!off.is_everything());
    assert_eq!(off.combined(&empty(), W, H), Vec::<Rect>::new());
}

#[test]
fn nearby_marks_merge_and_a_later_mark_joins_the_first_region_it_meets() {
    // Within the four-pixel slack the two merge; the third lands far away.
    let marks = dirty(&[
        Rect::new(10, 10, 20, 20),
        Rect::new(23, 10, 30, 20),
        Rect::new(500, 500, 510, 510),
    ]);
    assert_eq!(
        marks.combined(&empty(), W, H),
        vec![Rect::new(10, 10, 30, 20), Rect::new(500, 500, 510, 510)]
    );
    let apart = dirty(&[Rect::new(10, 10, 20, 20), Rect::new(24, 10, 30, 20)]);
    assert_eq!(apart.combined(&empty(), W, H).len(), 2);
}

#[test]
fn every_pixel_either_frame_marked_is_covered() {
    // The covering law on concrete frames: each marked pixel lies in one of
    // the regions handed out, and every region lies on the surface.
    let now = dirty(&[Rect::new(5, 5, 9, 9), Rect::new(700, 3, 720, 40)]);
    let before = dirty(&[Rect::new(8, 8, 30, 12), Rect::new(-3, 1000, 4, 2000)]);
    let regions = now.combined(&before, W, H);
    let inside = |x: i32, y: i32| {
        regions
            .iter()
            .any(|r| r.left <= x && x < r.right && r.top <= y && y < r.bottom)
    };
    for (x, y) in [(5, 5), (8, 8), (29, 11), (700, 3), (719, 39), (0, 1000), (3, 1151)] {
        assert!(inside(x, y), "({x}, {y}) in {regions:?}");
    }
    for r in &regions {
        assert!(r.left >= 0 && r.top >= 0 && r.right <= W && r.bottom <= H);
    }
}

#[test]
fn a_surface_of_unknown_size_discards_every_mark() {
    let mut unsized_ = Dirty::default();
    unsized_.touch(Rect::new(0, 0, 100, 100));
    assert!(!unsized_.is_everything());
    // Nothing is marked, and a surface of no pixels is covered "most of the
    // way" by nothing, so the whole (empty) surface is handed back.
    assert_eq!(
        unsized_.combined(&Dirty::default(), 0, 0),
        vec![Rect::new(0, 0, 0, 0)]
    );
}

#[test]
fn a_copied_frame_hands_out_the_same_regions() {
    let first = dirty(&[Rect::new(1, 2, 30, 40), Rect::new(900, 900, 950, 910)]);
    let copy = first.clone();
    assert_eq!(copy.combined(&empty(), W, H), first.combined(&empty(), W, H));
    assert_eq!(copy.is_everything(), first.is_everything());
}

#[test]
fn an_area_too_large_for_i64_saturates_and_is_never_negative() {
    let r = Rect::new(i32::MIN, i32::MIN, i32::MAX, i32::MAX);
    assert_eq!(r.area(), i64::MAX);
    assert!(r.area() >= 0);
    let just_fits = Rect::new(i32::MIN, 0, i32::MAX, i32::MAX);
    assert_eq!(just_fits.area(), u32::MAX as i64 * i32::MAX as i64);
}
