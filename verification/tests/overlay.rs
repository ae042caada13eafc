use echo::overlay::rgb;

#[test]
fn a_colour_is_packed_blue_green_red_from_the_high_byte_down() {
    assert_eq!(rgb(0x01, 0x01, 0x01), 0x01_01_01);
    assert_eq!(rgb(0xFF, 0, 0), 0x00_00_FF);
    assert_eq!(rgb(0, 0xFF, 0), 0x00_FF_00);
    assert_eq!(rgb(0, 0, 0xFF), 0xFF_00_00);
    assert_eq!(rgb(0x12, 0x34, 0x56), 0x56_34_12);
}

#[test]
fn each_channel_comes_back_out_of_the_packed_value() {
    for (r, g, b) in [(1u8, 2u8, 3u8), (255, 0, 128), (0, 0, 0), (255, 255, 255)] {
        let c = rgb(r, g, b);
        assert_eq!(c & 0xFF, u32::from(r));
        assert_eq!((c >> 8) & 0xFF, u32::from(g));
        assert_eq!(c >> 16, u32::from(b));
    }
}

use echo::overlay::{follow, follow_target, Bounds, FrameCost, Follow, Stage};

const AT: Bounds = Bounds { x: 0, y: 0, width: 2048, height: 1152 };

#[test]
fn a_game_that_cannot_be_read_is_not_followed() {
    assert_eq!(follow(AT, None, None), Follow::Nothing);
    assert_eq!(follow(AT, None, Some(10_000)), Follow::Nothing);
}

#[test]
fn a_moved_or_resized_game_is_followed_there_whatever_the_timer_says() {
    let moved = Bounds { x: 10, ..AT };
    let resized = Bounds { width: 1920, ..AT };
    assert_eq!(follow(AT, Some(moved), Some(3)), Follow::Move(moved));
    assert_eq!(follow(AT, Some(resized), None), Follow::Move(resized));
}

#[test]
fn the_topmost_claim_is_repeated_only_once_the_interval_has_passed() {
    assert_eq!(follow(AT, Some(AT), None), Follow::Reassert, "never claimed");
    assert_eq!(follow(AT, Some(AT), Some(249)), Follow::Nothing);
    assert_eq!(follow(AT, Some(AT), Some(250)), Follow::Reassert);
    assert_eq!(follow(AT, Some(AT), Some(10_000)), Follow::Reassert);
}

#[test]
fn following_with_the_clock_claims_at_once_and_then_waits() {
    assert_eq!(follow_target(AT, Some(AT), None), Follow::Reassert);
    let now = std::time::Instant::now();
    assert_eq!(follow_target(AT, Some(AT), Some(now)), Follow::Nothing);
    let moved = Bounds { y: 40, ..AT };
    assert_eq!(follow_target(AT, Some(moved), Some(now)), Follow::Move(moved));
    assert_eq!(follow_target(AT, None, Some(now)), Follow::Nothing);
}

fn cost(surface: u64, buffer: u64, clear: u64, paint: u64, blit: u64) -> FrameCost {
    FrameCost { surface, buffer, clear, paint, blit, regions: 1 }
}

#[test]
fn the_total_is_every_stage_added() {
    assert_eq!(cost(1, 2, 3, 4, 5).total(), 15);
    assert_eq!(cost(0, 0, 0, 0, 0).total(), 0);
    assert_eq!(
        cost(u64::MAX, u64::MAX, u64::MAX, u64::MAX, u64::MAX).total(),
        5 * u64::MAX as u128
    );
}

#[test]
fn the_breakdown_lists_the_worst_stage_first() {
    let rows = cost(10, 20, 30, 500, 40).stages_worst_first();
    assert_eq!(
        rows,
        vec![
            (Stage::Paint, 500),
            (Stage::Blit, 40),
            (Stage::Clear, 30),
            (Stage::Buffer, 20),
            (Stage::Surface, 10),
        ]
    );
}

#[test]
fn stages_that_took_equally_long_keep_their_listed_order() {
    let rows = cost(7, 7, 7, 7, 7).stages_worst_first();
    let stages: Vec<Stage> = rows.iter().map(|r| r.0).collect();
    assert_eq!(
        stages,
        vec![Stage::Clear, Stage::Paint, Stage::Blit, Stage::Buffer, Stage::Surface]
    );
    let rows = cost(9, 1, 1, 9, 1).stages_worst_first();
    assert_eq!(
        rows,
        vec![
            (Stage::Paint, 9),
            (Stage::Surface, 9),
            (Stage::Clear, 1),
            (Stage::Blit, 1),
            (Stage::Buffer, 1),
        ]
    );
}

use echo::overlay::dirty::{Dirty, Rect};
use echo::overlay::{box_marks, client_bounds, frame_regions, line_mark, text_mark};

#[test]
fn a_client_area_with_no_width_or_height_is_no_bounds() {
    assert_eq!(
        client_bounds(100, 50, Rect::new(0, 0, 1920, 1080)),
        Some(Bounds { x: 100, y: 50, width: 1920, height: 1080 })
    );
    assert_eq!(client_bounds(0, 0, Rect::new(0, 0, 0, 1080)), None);
    assert_eq!(client_bounds(0, 0, Rect::new(0, 0, 1920, 0)), None);
    assert_eq!(client_bounds(0, 0, Rect::new(10, 10, 5, 20)), None);
}

#[test]
fn a_line_marks_half_its_pen_either_side_and_one_pixel_more() {
    assert_eq!(line_mark((100, 100), (300, 100), 1), Rect::new(99, 99, 301, 101));
    assert_eq!(line_mark((300, 500), (100, 100), 4), Rect::new(97, 97, 303, 503));
    assert_eq!(line_mark((10, 10), (10, 10), 5), Rect::new(7, 7, 13, 13));
    // Division rounds towards zero for a negative width, as Rust's does.
    assert_eq!(line_mark((10, 10), (10, 10), -3), Rect::new(10, 10, 10, 10));
    assert_eq!(line_mark((10, 10), (10, 10), -4), Rect::new(11, 11, 9, 9));
}

#[test]
fn a_box_marks_its_four_sides_in_drawing_order() {
    assert_eq!(
        box_marks(100, 100, 200, 400, 1),
        vec![
            Rect::new(99, 99, 301, 101),
            Rect::new(299, 99, 301, 501),
            Rect::new(99, 499, 301, 501),
            Rect::new(99, 99, 101, 501),
        ]
    );
}

#[test]
fn text_marks_its_extent_and_never_less_than_twenty_high() {
    assert_eq!(text_mark(10, 20, 80, 16), Rect::new(10, 20, 92, 42));
    assert_eq!(text_mark(10, 20, 80, 30), Rect::new(10, 20, 92, 52));
}

fn fresh(width: i32, height: i32) -> Dirty {
    let mut d = Dirty::default();
    d.clear(width, height);
    d
}

#[test]
fn a_rebuilt_surface_is_cleared_and_copied_whole() {
    let mut previous = fresh(800, 600);
    let regions = frame_regions(&mut previous, true, &vec![Rect::new(1, 1, 5, 5)], 800, 600);
    assert_eq!(regions.clear, vec![Rect::new(0, 0, 800, 600)]);
    assert_eq!(regions.copy, vec![Rect::new(0, 0, 800, 600)]);
}

#[test]
fn a_frame_clears_what_the_last_left_and_copies_both() {
    let mut previous = fresh(800, 600);
    let first = frame_regions(&mut previous, false, &vec![Rect::new(10, 10, 20, 20)], 800, 600);
    assert_eq!(first.clear, Vec::<Rect>::new());
    assert_eq!(first.copy, vec![Rect::new(10, 10, 20, 20)]);

    let second = frame_regions(&mut previous, false, &vec![Rect::new(100, 100, 120, 120)], 800, 600);
    assert_eq!(second.clear, vec![Rect::new(10, 10, 20, 20)]);
    assert_eq!(
        second.copy,
        vec![Rect::new(100, 100, 120, 120), Rect::new(10, 10, 20, 20)]
    );

    // Nothing painted: the last frame's marks are still taken away.
    let third = frame_regions(&mut previous, false, &Vec::new(), 800, 600);
    assert_eq!(third.clear, vec![Rect::new(100, 100, 120, 120)]);
    assert_eq!(third.copy, vec![Rect::new(100, 100, 120, 120)]);
    // And that empty frame hands nothing over to be cleared next time.
    assert_eq!(previous.combined(&Dirty::default(), 800, 600), Vec::<Rect>::new());
}

use echo::overlay::{followed, text_width};

#[test]
fn a_move_takes_the_new_bounds_and_restarts_the_claim_timer() {
    let moved = Bounds { x: 30, ..AT };
    assert_eq!(followed(AT, Some(1_000), Some(moved), 1_010), (Follow::Move(moved), moved, Some(1_010)));
    // Right behind the move, nothing is claimed again.
    assert_eq!(followed(moved, Some(1_010), Some(moved), 1_100), (Follow::Nothing, moved, Some(1_010)));
    assert_eq!(followed(moved, Some(1_010), Some(moved), 1_260), (Follow::Reassert, moved, Some(1_260)));
}

#[test]
fn a_game_that_cannot_be_read_leaves_everything_as_it_was() {
    assert_eq!(followed(AT, Some(5), None, 100_000), (Follow::Nothing, AT, Some(5)));
    assert_eq!(followed(AT, None, None, 0), (Follow::Nothing, AT, None));
}

#[test]
fn a_clock_that_went_backwards_counts_as_no_time() {
    assert_eq!(followed(AT, Some(5_000), Some(AT), 10), (Follow::Nothing, AT, Some(5_000)));
    assert_eq!(followed(AT, None, Some(AT), 10), (Follow::Reassert, AT, Some(10)));
}

#[test]
fn an_unmeasured_line_of_text_is_sixteen_pixels_a_unit() {
    assert_eq!(text_width(Some(87), 12), 87);
    assert_eq!(text_width(None, 12), 192);
    assert_eq!(text_width(None, 0), 0);
}
