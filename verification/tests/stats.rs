use aqw_patch::stats::{
    begin_frame, end_frame, record_blend_complex, record_blend_shader, record_blend_trivial,
    record_draw_call, FrameStats, StatsReport, LOG_EVERY_N_FRAMES,
};

fn draw(stats: &mut FrameStats, calls: u32) {
    for _ in 0..calls {
        record_draw_call(stats);
    }
}

#[test]
fn new_counters_are_zero() {
    let stats = FrameStats::new();
    assert_eq!(stats.draw_calls, 0);
    assert_eq!(stats.blend_trivial, 0);
    assert_eq!(stats.blend_complex, 0);
    assert_eq!(stats.blend_shader, 0);
    assert_eq!(stats.cache_redraws, 0);
    assert_eq!(stats.max_draw_calls, 0);
    assert_eq!(stats.frame_count, 0);
}

#[test]
fn each_counter_counts_its_own_kind() {
    let mut stats = FrameStats::new();
    begin_frame(&mut stats, 9);
    draw(&mut stats, 4);
    record_blend_trivial(&mut stats);
    record_blend_complex(&mut stats);
    record_blend_complex(&mut stats);
    record_blend_shader(&mut stats);
    record_blend_shader(&mut stats);
    record_blend_shader(&mut stats);
    let expected = FrameStats {
        draw_calls: 4,
        blend_trivial: 1,
        blend_complex: 2,
        blend_shader: 3,
        cache_redraws: 9,
        max_draw_calls: 0,
        frame_count: 0,
    };
    assert_eq!(stats, expected);
}

#[test]
fn closing_a_frame_clears_the_frame_counters() {
    let mut stats = FrameStats::new();
    begin_frame(&mut stats, 9);
    draw(&mut stats, 4);
    record_blend_trivial(&mut stats);
    record_blend_complex(&mut stats);
    record_blend_shader(&mut stats);
    assert_eq!(end_frame(&mut stats), None);
    let expected = FrameStats {
        draw_calls: 0,
        blend_trivial: 0,
        blend_complex: 0,
        blend_shader: 0,
        cache_redraws: 9,
        max_draw_calls: 4,
        frame_count: 1,
    };
    assert_eq!(stats, expected);
}

#[test]
fn a_report_comes_with_every_sixtieth_frame() {
    assert_eq!(LOG_EVERY_N_FRAMES, 60);
    let mut stats = FrameStats::new();
    for frame in 1..=180u32 {
        let report = end_frame(&mut stats);
        assert_eq!(report.is_some(), frame % 60 == 0);
        assert_eq!(stats.frame_count, frame);
    }
}

#[test]
fn a_report_holds_the_last_frame_and_the_peak_of_its_window() {
    let mut stats = FrameStats::new();
    // The peak of the first window must not leak into the second.
    for frame in 1..60u32 {
        draw(&mut stats, if frame == 30 { 500 } else { 2 });
        assert_eq!(end_frame(&mut stats), None);
    }
    draw(&mut stats, 3);
    assert_eq!(end_frame(&mut stats).unwrap().max_draw_calls_in_window, 500);
    for frame in 1..60u32 {
        draw(&mut stats, frame % 7);
        assert_eq!(end_frame(&mut stats), None);
    }
    begin_frame(&mut stats, 11);
    draw(&mut stats, 5);
    record_blend_trivial(&mut stats);
    record_blend_shader(&mut stats);
    record_blend_shader(&mut stats);
    let expected = StatsReport {
        draw_calls: 5,
        max_draw_calls_in_window: 6,
        blend_trivial: 1,
        blend_complex: 0,
        blend_shader: 2,
        cache_redraws: 11,
    };
    assert_eq!(end_frame(&mut stats), Some(expected));
    assert_eq!(stats.max_draw_calls, 0);
}

#[test]
fn the_frame_that_closes_a_window_can_be_its_peak() {
    let mut stats = FrameStats::new();
    for _ in 1..60u32 {
        draw(&mut stats, 1);
        assert_eq!(end_frame(&mut stats), None);
    }
    draw(&mut stats, 8);
    let report = end_frame(&mut stats).unwrap();
    assert_eq!(report.draw_calls, 8);
    assert_eq!(report.max_draw_calls_in_window, 8);
}
