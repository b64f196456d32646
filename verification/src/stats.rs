//! Per-frame render counters.
//!
//! The renderer counts draw calls and blend operations while it builds a frame.
//! [`end_frame`] closes the frame: it resets the per-frame counters and, once
//! every [`LOG_EVERY_N_FRAMES`] frames, hands out a [`StatsReport`] to be logged.
use vstd::prelude::*;

verus! {

/// A report is due each time this many frames have been closed.
pub const LOG_EVERY_N_FRAMES: u32 = 60;

/// The counters of one render thread.
#[derive(Clone, Copy, Debug, PartialEq, Eq, Structural)]
pub struct FrameStats {
    pub draw_calls: u32,
    pub blend_trivial: u32,
    pub blend_complex: u32,
    pub blend_shader: u32,
    pub cache_redraws: u32,
    /// The largest number of draw calls of a frame since the last report.
    pub max_draw_calls: u32,
    /// The number of frames closed so far.
    pub frame_count: u32,
}

/// What is logged when a window of frames is complete: the counters of the
/// frame that completes it, and the peak of draw calls over the window.
#[derive(Clone, Copy, Debug, PartialEq, Eq, Structural)]
pub struct StatsReport {
    pub draw_calls: u32,
    pub max_draw_calls_in_window: u32,
    pub blend_trivial: u32,
    pub blend_complex: u32,
    pub blend_shader: u32,
    pub cache_redraws: u32,
}

pub open spec fn max_u32(a: u32, b: u32) -> u32 {
    if a >= b {
        a
    } else {
        b
    }
}

impl FrameStats {
    /// Counters of a thread that has not recorded anything.
    pub open spec fn zero() -> FrameStats {
        FrameStats {
            draw_calls: 0,
            blend_trivial: 0,
            blend_complex: 0,
            blend_shader: 0,
            cache_redraws: 0,
            max_draw_calls: 0,
            frame_count: 0,
        }
    }

    pub fn new() -> (stats: FrameStats)
        ensures
            stats == FrameStats::zero(),
    {
        FrameStats {
            draw_calls: 0,
            blend_trivial: 0,
            blend_complex: 0,
            blend_shader: 0,
            cache_redraws: 0,
            max_draw_calls: 0,
            frame_count: 0,
        }
    }

    /// Whether closing the current frame completes a window.
    pub open spec fn closes_window(self) -> bool {
        (self.frame_count + 1) % (LOG_EVERY_N_FRAMES as int) == 0
    }

    /// The peak of draw calls of the window, the current frame counted in.
    pub open spec fn peak(self) -> u32 {
        max_u32(self.max_draw_calls, self.draw_calls)
    }

    /// The counters once the current frame is closed.
    pub open spec fn closed_frame(self) -> FrameStats {
        FrameStats {
            draw_calls: 0,
            blend_trivial: 0,
            blend_complex: 0,
            blend_shader: 0,
            cache_redraws: self.cache_redraws,
            max_draw_calls: if self.closes_window() {
                0
            } else {
                self.peak()
            },
            frame_count: (self.frame_count + 1) as u32,
        }
    }

    /// What closing the current frame reports.
    pub open spec fn report(self) -> Option<StatsReport> {
        if self.closes_window() {
            Some(
                StatsReport {
                    draw_calls: self.draw_calls,
                    max_draw_calls_in_window: self.peak(),
                    blend_trivial: self.blend_trivial,
                    blend_complex: self.blend_complex,
                    blend_shader: self.blend_shader,
                    cache_redraws: self.cache_redraws,
                },
            )
        } else {
            None
        }
    }
}

/// Counts one draw call of the current frame.
pub fn record_draw_call(stats: &mut FrameStats)
    requires
        old(stats).draw_calls < u32::MAX,
    ensures
        *final(stats) == (FrameStats {
            draw_calls: (old(stats).draw_calls + 1) as u32,
            ..*old(stats)
        }),
{
    stats.draw_calls = stats.draw_calls + 1;
}

/// Counts one blend that fixed-function blending handles.
pub fn record_blend_trivial(stats: &mut FrameStats)
    requires
        old(stats).blend_trivial < u32::MAX,
    ensures
        *final(stats) == (FrameStats {
            blend_trivial: (old(stats).blend_trivial + 1) as u32,
            ..*old(stats)
        }),
{
    stats.blend_trivial = stats.blend_trivial + 1;
}

/// Counts one blend that needs a copy of what is below it.
pub fn record_blend_complex(stats: &mut FrameStats)
    requires
        old(stats).blend_complex < u32::MAX,
    ensures
        *final(stats) == (FrameStats {
            blend_complex: (old(stats).blend_complex + 1) as u32,
            ..*old(stats)
        }),
{
    stats.blend_complex = stats.blend_complex + 1;
}

/// Counts one blend done by a custom shader.
pub fn record_blend_shader(stats: &mut FrameStats)
    requires
        old(stats).blend_shader < u32::MAX,
    ensures
        *final(stats) == (FrameStats {
            blend_shader: (old(stats).blend_shader + 1) as u32,
            ..*old(stats)
        }),
{
    stats.blend_shader = stats.blend_shader + 1;
}

/// Opens a frame that redraws `cache_redraws` cached bitmaps.
pub fn begin_frame(stats: &mut FrameStats, cache_redraws: u32)
    ensures
        *final(stats) == (FrameStats { cache_redraws, ..*old(stats) }),
{
    stats.cache_redraws = cache_redraws;
}

/// Closes the current frame. Every [`LOG_EVERY_N_FRAMES`]th call returns the
/// report to be logged and starts a new window.
pub fn end_frame(stats: &mut FrameStats) -> (report: Option<StatsReport>)
    requires
        old(stats).frame_count < u32::MAX,
    ensures
        *final(stats) == old(stats).closed_frame(),
        report == old(stats).report(),
{
    let draw_calls = stats.draw_calls;
    let blend_trivial = stats.blend_trivial;
    let blend_complex = stats.blend_complex;
    let blend_shader = stats.blend_shader;
    let cache_redraws = stats.cache_redraws;
    stats.draw_calls = 0;
    stats.blend_trivial = 0;
    stats.blend_complex = 0;
    stats.blend_shader = 0;

    if draw_calls > stats.max_draw_calls {
        stats.max_draw_calls = draw_calls;
    }
    stats.frame_count = stats.frame_count + 1;

    if stats.frame_count % LOG_EVERY_N_FRAMES == 0 {
        let max_draw_calls_in_window = stats.max_draw_calls;
        stats.max_draw_calls = 0;
        Some(
            StatsReport {
                draw_calls,
                max_draw_calls_in_window,
                blend_trivial,
                blend_complex,
                blend_shader,
                cache_redraws,
            },
        )
    } else {
        None
    }
}

/// What the renderer does in one frame, from `begin_frame` to `end_frame`.
pub struct FrameWork {
    pub cache_redraws: u32,
    pub draw_calls: u32,
    pub blend_trivial: u32,
    pub blend_complex: u32,
    pub blend_shader: u32,
}

/// The counters just before a frame that did `work` is closed, where `before`
/// are the counters at the end of the frame that precedes it.
pub open spec fn with_work(before: FrameStats, work: FrameWork) -> FrameStats {
    FrameStats {
        draw_calls: work.draw_calls,
        blend_trivial: work.blend_trivial,
        blend_complex: work.blend_complex,
        blend_shader: work.blend_shader,
        cache_redraws: work.cache_redraws,
        ..before
    }
}

/// The counters of a fresh thread after the frames in `frames`.
pub open spec fn after_frames(frames: Seq<FrameWork>) -> FrameStats
    decreases frames.len(),
{
    if frames.len() == 0 {
        FrameStats::zero()
    } else {
        with_work(after_frames(frames.drop_last()), frames.last()).closed_frame()
    }
}

/// What closing the last of `frames` reports.
pub open spec fn last_report(frames: Seq<FrameWork>) -> Option<StatsReport>
    recommends
        frames.len() > 0,
{
    with_work(after_frames(frames.drop_last()), frames.last()).report()
}

/// Whether `peak` is the largest number of draw calls of a frame in
/// `frames[from..]`, or 0 where that range is empty.
pub open spec fn is_peak_since(frames: Seq<FrameWork>, from: int, peak: u32) -> bool {
    &&& forall|i: int| from <= i < frames.len() ==> (#[trigger] frames[i]).draw_calls <= peak
    &&& peak == 0 || exists|i: int|
        from <= i < frames.len() && (#[trigger] frames[i]).draw_calls == peak
}

/// Closing one more frame raises the peak to that frame's draw calls, if they
/// are more.
proof fn lemma_peak_with_last(frames: Seq<FrameWork>, from: int, earlier_peak: u32)
    requires
        0 <= from < frames.len(),
        is_peak_since(frames.drop_last(), from, earlier_peak),
    ensures
        is_peak_since(frames, from, max_u32(earlier_peak, frames.last().draw_calls)),
{
    let earlier = frames.drop_last();
    let peak = max_u32(earlier_peak, frames.last().draw_calls);
    assert forall|i: int| from <= i < frames.len() implies (#[trigger] frames[i]).draw_calls
        <= peak by {
        if i < earlier.len() {
            assert(earlier[i] == frames[i]);
        }
    }
    if peak == frames.last().draw_calls {
        assert(frames[frames.len() - 1].draw_calls == peak);
    } else {
        let i = choose|i: int|
            from <= i < earlier.len() && (#[trigger] earlier[i]).draw_calls == earlier_peak;
        assert(frames[i].draw_calls == peak);
    }
}

/// After any run of frames the per-frame counters are clear, every frame has
/// been counted, and `max_draw_calls` is the peak of the window in progress.
pub proof fn frames_leave_window_peak(frames: Seq<FrameWork>)
    requires
        frames.len() <= u32::MAX,
    ensures
        ({
            let s = after_frames(frames);
            let in_progress = frames.len() as int % (LOG_EVERY_N_FRAMES as int);
            &&& s.draw_calls == 0
            &&& s.blend_trivial == 0
            &&& s.blend_complex == 0
            &&& s.blend_shader == 0
            &&& s.frame_count == frames.len()
            &&& is_peak_since(frames, frames.len() - in_progress, s.max_draw_calls)
        }),
    decreases frames.len(),
{
    if frames.len() > 0 {
        let earlier = frames.drop_last();
        frames_leave_window_peak(earlier);
        let from = earlier.len() - earlier.len() as int % (LOG_EVERY_N_FRAMES as int);
        lemma_peak_with_last(frames, from, after_frames(earlier).max_draw_calls);
    }
}

/// A report comes with every [`LOG_EVERY_N_FRAMES`]th frame and with no other.
/// It holds the counters of that frame and the peak of draw calls over the
/// frames since the report before it.
pub proof fn report_covers_its_window(frames: Seq<FrameWork>)
    requires
        0 < frames.len() <= u32::MAX,
    ensures
        last_report(frames) is Some <==> frames.len() as int % (LOG_EVERY_N_FRAMES as int) == 0,
        last_report(frames) matches Some(r) ==> {
            &&& r.draw_calls == frames.last().draw_calls
            &&& r.blend_trivial == frames.last().blend_trivial
            &&& r.blend_complex == frames.last().blend_complex
            &&& r.blend_shader == frames.last().blend_shader
            &&& r.cache_redraws == frames.last().cache_redraws
            &&& is_peak_since(
                frames,
                frames.len() - LOG_EVERY_N_FRAMES,
                r.max_draw_calls_in_window,
            )
        },
{
    let earlier = frames.drop_last();
    frames_leave_window_peak(earlier);
    if last_report(frames) is Some {
        let from = earlier.len() - earlier.len() as int % (LOG_EVERY_N_FRAMES as int);
        assert(from == frames.len() - LOG_EVERY_N_FRAMES);
        lemma_peak_with_last(frames, from, after_frames(earlier).max_draw_calls);
    }
}

/// Closing a frame clears what was counted in it and keeps the cache redraws. Of the
/// window's peak it keeps the larger of the old one and this frame's draw calls,
/// unless the window is complete: then the next one starts at 0.
pub proof fn closing_clears_the_frame(s: FrameStats)
    requires
        s.frame_count < u32::MAX,
    ensures
        ({
            let after = s.closed_frame();
            &&& after.draw_calls == 0
            &&& after.blend_trivial == 0
            &&& after.blend_complex == 0
            &&& after.blend_shader == 0
            &&& after.cache_redraws == s.cache_redraws
            &&& after.frame_count == s.frame_count + 1
            &&& (s.frame_count + 1) % 60 == 0 ==> after.max_draw_calls == 0
            &&& (s.frame_count + 1) % 60 != 0 ==> {
                &&& after.max_draw_calls >= s.max_draw_calls
                &&& after.max_draw_calls >= s.draw_calls
                &&& after.max_draw_calls == s.max_draw_calls || after.max_draw_calls
                    == s.draw_calls
            }
        }),
{
}

/// A report comes exactly with every sixtieth frame. It holds what was counted in that
/// frame, and the larger of its draw calls and the window's peak before it.
pub proof fn report_holds_the_frame(s: FrameStats)
    requires
        s.frame_count < u32::MAX,
    ensures
        (s.frame_count + 1) % 60 == 0 <==> s.report() is Some,
        s.report() matches Some(report) ==> {
            &&& report.draw_calls == s.draw_calls
            &&& report.blend_trivial == s.blend_trivial
            &&& report.blend_complex == s.blend_complex
            &&& report.blend_shader == s.blend_shader
            &&& report.cache_redraws == s.cache_redraws
            &&& report.max_draw_calls_in_window >= s.max_draw_calls
            &&& report.max_draw_calls_in_window >= s.draw_calls
            &&& report.max_draw_calls_in_window == s.max_draw_calls
                || report.max_draw_calls_in_window == s.draw_calls
        },
{
}

/// A fresh thread has counted nothing.
pub proof fn fresh_counters_are_zero()
    ensures
        ({
            let s = FrameStats::zero();
            &&& s.draw_calls == 0
            &&& s.blend_trivial == 0
            &&& s.blend_complex == 0
            &&& s.blend_shader == 0
            &&& s.cache_redraws == 0
            &&& s.max_draw_calls == 0
            &&& s.frame_count == 0
        }),
{
}

} // verus!
