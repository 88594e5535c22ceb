use cosmic_comp::output_config::{AdaptiveSync, HdrColorspace};
use cosmic_comp::postprocess::{
    bounding_geometry, cursor_element_count, postprocess_elements, COLOR_MODE_HDR_HARDWARE,
    COLOR_MODE_HDR_HARDWARE_TUNED, COLOR_MODE_HDR_SOFTWARE, COLOR_MODE_HDR_TEST_PATTERN,
};
use cosmic_comp::geometry::Rect;
use cosmic_comp::surface::{
    estimated_vblank_delay, min_refresh_interval, refresh_interval, render_node_for_output,
    Answer, CommandEffect, FrameFlags, FrameInputs, HdrTuning, OffscreenPass, QueueOutcome, QueueState,
    RedrawFailure, Refresh, ScanoutLimits, ScreenFilter, SurfaceThreadState, ThreadCommand, VblankMetadata,
    VblankStep, WorkspaceNodes, ABGR16161616F,
};

const NO_FILTER: ScreenFilter = ScreenFilter { inverted: false, color_filter: None };
const NO_LIMITS: ScanoutLimits =
    ScanoutLimits { no_direct_scanout: false, no_overlay_scanout: false };
const XRGB8888: u32 = 0x3432_5258;

fn tuning() -> HdrTuning {
    HdrTuning {
        colorspace: HdrColorspace::Bt2020,
        ref_white: 203,
        gamut_strength: 100,
        saturation: 100,
        midtone_gamma: 100,
        test_pattern: false,
    }
}

fn thread() -> SurfaceThreadState<u32> {
    let mut thread = SurfaceThreadState::new(1, 10, NO_FILTER);
    thread.resume(NO_LIMITS);
    thread
}

fn inputs() -> FrameInputs {
    FrameInputs {
        primary_node: Some(1),
        workspace: WorkspaceNodes::NoWorkspace,
        animations_going: false,
        fullscreen: None,
        past_min_render_time: false,
        path_b: false,
        swapchain_format: XRGB8888,
        mirror_differs: false,
    }
}

#[test]
fn threads_start_without_a_compositor() {
    let mut thread: SurfaceThreadState<u32> = SurfaceThreadState::new(1, 10, NO_FILTER);
    assert_eq!(thread.vrr_mode, AdaptiveSync::Disabled);
    assert_eq!(thread.state, QueueState::Idle);
    assert_eq!(thread.frame_flags, FrameFlags::allow_scanout());
    assert_eq!(thread.tuning.ref_white, 250);
    assert_eq!(thread.tuning.saturation, 120);
    assert_eq!(thread.tuning.midtone_gamma, 70);
    assert!(!thread.queue_redraw(true));
    assert_eq!(thread.redraw(&inputs()), None);
    assert!(thread.dpms_off().is_none());
}

#[test]
fn a_frame_goes_around() {
    let mut thread = thread();
    assert!(thread.queue_redraw(false));
    assert_eq!(thread.redraw_scheduled(7), None);
    assert_eq!(thread.state, QueueState::Queued(7));
    // Further requests are merged, unless they are forced.
    assert!(!thread.queue_redraw(false));
    assert!(thread.queue_redraw(true));
    assert_eq!(thread.redraw_scheduled(8), Some(7));
    let effects = thread.frame_queued(QueueOutcome::Queued, false);
    assert_eq!(effects.remove, None);
    assert_eq!(effects.callbacks, Some(1));
    assert!(effects.sends_states);
    assert_eq!(effects.estimate, None);
    assert_eq!(thread.state, QueueState::WaitingForVBlank { redraw_needed: false });
    // A request is remembered until the vblank.
    assert!(!thread.queue_redraw(false));
    assert!(!thread.queue_redraw(true));
    assert_eq!(thread.state, QueueState::WaitingForVBlank { redraw_needed: true });
    assert!(matches!(thread.begin_vblank(), VblankStep::Present));
    let effects = thread.finish_vblank(false);
    assert!(effects.schedule);
    assert_eq!(effects.callbacks, Some(1));
    assert_eq!(thread.state, QueueState::Idle);
}

#[test]
fn empty_frames_wait_for_an_estimate() {
    let mut thread = thread();
    assert!(thread.queue_redraw(false));
    thread.redraw_scheduled(1);
    let effects = thread.frame_queued(QueueOutcome::EmptyFrame, true);
    assert_eq!(effects.estimate, Some(true));
    assert_eq!(effects.remove, None);
    assert_eq!(thread.state, QueueState::Idle);
    thread.estimate_scheduled(2);
    assert_eq!(thread.state, QueueState::WaitingForEstimatedVBlank(2));
    assert!(thread.queue_redraw(false));
    assert_eq!(thread.redraw_scheduled(3), None);
    assert_eq!(
        thread.state,
        QueueState::WaitingForEstimatedVBlankAndQueued { estimated_vblank: 2, queued_render: 3 }
    );
    // Another empty frame keeps the timer that runs.
    let effects = thread.frame_queued(QueueOutcome::EmptyFrame, false);
    assert_eq!(effects.estimate, None);
    assert_eq!(thread.state, QueueState::WaitingForEstimatedVBlank(2));
    // A frame with content removes it.
    thread.queue_redraw(false);
    thread.redraw_scheduled(4);
    let effects = thread.frame_queued(QueueOutcome::Queued, false);
    assert_eq!(effects.remove, Some(2));
}

#[test]
fn estimated_vblanks() {
    let mut thread = thread();
    thread.estimate_scheduled(2);
    let effects = thread.on_estimated_vblank(false, false);
    assert!(!effects.schedule);
    assert_eq!(effects.callbacks, Some(1));
    assert_eq!(thread.state, QueueState::Idle);
    thread.estimate_scheduled(2);
    assert!(thread.on_estimated_vblank(true, false).schedule);
    thread.estimate_scheduled(2);
    assert!(thread.on_estimated_vblank(false, true).schedule);
    // The timer fires in front of a redraw.
    thread.estimate_scheduled(2);
    thread.queue_redraw(false);
    thread.redraw_scheduled(3);
    let before = thread.frame_callback_seq;
    let effects = thread.on_estimated_vblank(true, true);
    assert!(!effects.schedule);
    assert_eq!(effects.callbacks, None);
    assert_eq!(thread.state, QueueState::Queued(3));
    assert_eq!(thread.frame_callback_seq, before);
}

#[test]
fn callback_numbers_wrap() {
    let mut thread = thread();
    thread.frame_callback_seq = usize::MAX;
    thread.estimate_scheduled(2);
    assert_eq!(thread.on_estimated_vblank(false, false).callbacks, Some(0));
}

#[test]
fn mirrors_leave_callbacks_to_the_mirrored() {
    let mut thread = thread();
    thread.mirroring = Some(11);
    thread.queue_redraw(false);
    thread.redraw_scheduled(1);
    let effects = thread.frame_queued(QueueOutcome::Queued, false);
    assert_eq!(effects.callbacks, None);
    assert!(!effects.sends_states);
    assert_eq!(thread.frame_callback_seq, 0);
    assert_eq!(thread.finish_vblank(false).callbacks, None);
    assert!(!thread.separates_cursor(true));
    assert!(!thread.takes_feedback(false));
    thread.mirroring = None;
    assert!(thread.separates_cursor(true));
    assert!(!thread.separates_cursor(false));
    assert!(thread.takes_feedback(false));
    assert!(!thread.takes_feedback(true));
}

#[test]
fn unexpected_vblanks() {
    let mut thread = thread();
    assert!(matches!(thread.begin_vblank(), VblankStep::Ignored));
    thread.estimate_scheduled(2);
    thread.queue_redraw(false);
    thread.redraw_scheduled(3);
    let VblankStep::Reset(timers) = thread.begin_vblank() else {
        panic!("not reset")
    };
    assert_eq!(timers, vec![2, 3]);
    assert_eq!(thread.state, QueueState::Idle);
}

#[test]
fn suspension_gives_everything_up() {
    let mut thread = thread();
    thread.queue_redraw(false);
    thread.redraw_scheduled(3);
    let cancelled = thread.suspend();
    assert_eq!(cancelled.timers, vec![3]);
    assert!(!cancelled.discard_frame);
    assert!(!thread.has_compositor);
    assert_eq!(thread.state, QueueState::Idle);
    thread.resume(NO_LIMITS);
    thread.queue_redraw(false);
    thread.redraw_scheduled(3);
    thread.frame_queued(QueueOutcome::Queued, false);
    let cancelled = thread.dpms_off().unwrap();
    assert!(cancelled.timers.is_empty());
    assert!(cancelled.discard_frame);
    assert!(thread.has_compositor);
}

#[test]
fn failed_redraws_are_repeated() {
    let mut thread = thread();
    thread.queue_redraw(false);
    thread.redraw_scheduled(3);
    let effects = thread.redraw_failed(RedrawFailure::Rendering);
    assert!(effects.reset_buffers && !effects.fail_captures && effects.schedule);
    assert_eq!(thread.redraw_scheduled(4), Some(3));
    let effects = thread.redraw_failed(RedrawFailure::Submission);
    assert!(!effects.reset_buffers && effects.fail_captures && effects.schedule);
    thread.frame_queued(QueueOutcome::Queued, false);
    let effects = thread.redraw_failed(RedrawFailure::Aside);
    assert!(!effects.reset_buffers && !effects.fail_captures && !effects.schedule);
    assert_eq!(thread.state, QueueState::WaitingForVBlank { redraw_needed: true });
    thread.suspend();
    assert!(!thread.redraw_failed(RedrawFailure::Rendering).schedule);
}

#[test]
fn presentations() {
    let mut thread = thread();
    let metadata = VblankMetadata { time: Some(5000), sequence: 42 };
    let told = thread.presented(true, Some(metadata), 9000, Some(60000), false).unwrap();
    assert_eq!(told.time, 5000);
    assert!(told.hw_clock);
    assert_eq!(told.refresh, Refresh::Fixed(16666667));
    assert_eq!(told.sequence, 42);
    assert_eq!(thread.last_sequence, Some(42));
    let told = thread.presented(true, None, 9000, Some(144000), true).unwrap();
    assert_eq!(told.time, 9000);
    assert!(!told.hw_clock);
    assert_eq!(told.refresh, Refresh::Variable(6944444));
    assert_eq!(told.sequence, 0);
    let unclocked = VblankMetadata { time: None, sequence: 7 };
    let told = thread.presented(true, Some(unclocked), 9000, None, true).unwrap();
    assert_eq!(told.time, 9000);
    assert_eq!(told.refresh, Refresh::Unknown);
    assert_eq!(thread.last_sequence, Some(7));
    assert_eq!(thread.presented(false, Some(metadata), 9000, None, true), None);
    thread.mirroring = Some(11);
    assert_eq!(thread.presented(true, Some(metadata), 9000, None, true), None);
    assert_eq!(thread.last_sequence, Some(7));
}

#[test]
fn intervals() {
    assert_eq!(refresh_interval(60000), 16666667);
    assert_eq!(refresh_interval(1000), 1000000000);
    for rate in [1u32, 8192, 23976, 40960, 59940, 143981, 204800, 1024000, 5120000, 640000000] {
        let interval = std::time::Duration::from_secs_f64(1000.0 / rate as f64);
        assert_eq!(refresh_interval(rate) as u128, interval.as_nanos(), "{}", rate);
    }
    assert_eq!(min_refresh_interval(None), 33333333);
    // 1 / (20 + 2) s, and never less than a thirtieth of a second.
    assert_eq!(min_refresh_interval(Some(20)), 45454545);
    assert_eq!(min_refresh_interval(Some(48)), 33333333);
    assert_eq!(estimated_vblank_delay(1500, 1000, 16), 500);
    assert_eq!(estimated_vblank_delay(1000, 1000, 16), 16);
    assert_eq!(estimated_vblank_delay(900, 1000, 16), 16);
}

#[test]
fn render_nodes() {
    let windows = |nodes: &[Option<u64>]| WorkspaceNodes::Windows(nodes.to_vec());
    assert_eq!(render_node_for_output(1, 1, &windows(&[Some(3)])), 1);
    assert_eq!(render_node_for_output(1, 2, &WorkspaceNodes::NoWorkspace), 2);
    assert_eq!(render_node_for_output(1, 2, &windows(&[Some(3), Some(2)])), 2);
    assert_eq!(render_node_for_output(1, 2, &windows(&[Some(3), None])), 1);
    assert_eq!(render_node_for_output(1, 2, &windows(&[None, None])), 2);
    assert_eq!(render_node_for_output(1, 2, &windows(&[])), 2);
}

#[test]
fn plain_frames_are_rendered_directly() {
    let thread = thread();
    let plan = thread.redraw(&inputs()).unwrap();
    assert_eq!(plan.render_node, 1);
    assert!(!plan.vrr);
    assert_eq!(plan.flags, FrameFlags::allow_scanout());
    assert_eq!(plan.offscreen, None);
    assert_eq!(plan.hdr_context, None);
    assert!(plan.serves_captures);
    assert_eq!(plan.capture_white, 0);
}

#[test]
fn hdr_frames_are_composited() {
    let mut thread = thread();
    thread.hdr_enabled = true;
    thread.tuning = tuning();
    let plan = thread.redraw(&inputs()).unwrap();
    assert_eq!(plan.flags, FrameFlags::empty());
    assert_eq!(plan.hdr_context, Some(203));
    assert_eq!(plan.offscreen, Some(OffscreenPass { source: 10, format: XRGB8888 }));
    assert_eq!(plan.capture_white, 0);
    let plan = thread.redraw(&FrameInputs { path_b: true, ..inputs() }).unwrap();
    assert_eq!(plan.offscreen, Some(OffscreenPass { source: 10, format: ABGR16161616F }));
    assert_eq!(plan.capture_white, 203);
}

#[test]
fn filters_and_mirrors_go_offscreen() {
    let mut thread = thread();
    thread.screen_filter = ScreenFilter { inverted: true, color_filter: None };
    assert!(!thread.screen_filter.is_noop());
    assert_eq!(
        thread.redraw(&inputs()).unwrap().offscreen,
        Some(OffscreenPass { source: 10, format: XRGB8888 })
    );
    thread.mirroring = Some(11);
    let plan = thread.redraw(&inputs()).unwrap();
    assert_eq!(plan.offscreen.unwrap().source, 11);
    assert!(!plan.serves_captures);
    thread.screen_filter = NO_FILTER;
    assert_eq!(thread.redraw(&inputs()).unwrap().offscreen, None);
    let differs = FrameInputs { mirror_differs: true, ..inputs() };
    assert_eq!(thread.redraw(&differs).unwrap().offscreen.unwrap().source, 11);
}

#[test]
fn fullscreen_windows_and_adaptive_sync() {
    let mut thread = thread();
    thread.vrr_mode = AdaptiveSync::Enabled;
    assert!(!thread.redraw(&inputs()).unwrap().vrr);
    let fast = FrameInputs { fullscreen: Some(Some(16666667)), ..inputs() };
    let plan = thread.redraw(&fast).unwrap();
    assert!(plan.vrr);
    assert!(plan.skips_cursor_only);
    assert!(plan.flags.skip_cursor_only_updates);
    assert!(plan.flags.primary_scanout && !plan.flags.overlay_scanout);
    let late = FrameInputs { past_min_render_time: true, ..fast };
    assert!(!thread.redraw(&late).unwrap().skips_cursor_only);
    let slow = FrameInputs { fullscreen: Some(Some(33333334)), ..inputs() };
    let plan = thread.redraw(&slow).unwrap();
    assert!(plan.vrr && !plan.skips_cursor_only);
    let unknown = FrameInputs { fullscreen: Some(None), ..inputs() };
    assert!(!thread.redraw(&unknown).unwrap().skips_cursor_only);
    thread.vrr_mode = AdaptiveSync::Force;
    assert!(thread.redraw(&inputs()).unwrap().vrr);
    thread.vrr_mode = AdaptiveSync::Disabled;
    assert!(!thread.redraw(&unknown).unwrap().vrr);
    let animated = FrameInputs { animations_going: true, ..inputs() };
    assert!(!thread.redraw(&animated).unwrap().flags.overlay_scanout);
}

#[test]
fn offscreen_pictures_are_reused() {
    let anew = SurfaceThreadState::<u32>::recreates_offscreen;
    assert!(anew(None, XRGB8888));
    assert!(anew(Some((false, Some(XRGB8888))), XRGB8888));
    assert!(anew(Some((true, Some(ABGR16161616F))), XRGB8888));
    assert!(!anew(Some((true, Some(XRGB8888))), XRGB8888));
    assert!(!anew(Some((true, None)), XRGB8888));
}

#[test]
fn frame_flags_are_sets() {
    let all = FrameFlags::allow_scanout();
    let overlay = FrameFlags::allow_overlay_plane_scanout();
    assert!(all.primary_scanout && all.overlay_scanout && all.cursor_scanout);
    assert!(!all.primary_scanout_any && !all.skip_cursor_only_updates);
    assert_eq!(FrameFlags::empty().union(all), all);
    assert_eq!(all.union(overlay), all);
    assert_eq!(all.difference(all), FrameFlags::empty());
    assert!(!all.difference(overlay).overlay_scanout);
    assert_eq!(all.difference(overlay).union(overlay), all);
}

#[test]
fn forbidden_planes_stay_off() {
    let direct = ScanoutLimits { no_direct_scanout: true, no_overlay_scanout: false };
    let overlay = ScanoutLimits { no_direct_scanout: false, no_overlay_scanout: true };
    let mut thread: SurfaceThreadState<u32> = SurfaceThreadState::new(1, 10, NO_FILTER);
    thread.resume(direct);
    assert_eq!(thread.frame_flags, FrameFlags::empty());
    let allow = ThreadCommand::AllowFrameFlags(true, FrameFlags::allow_scanout());
    thread.on_command(allow, true, direct);
    assert_eq!(thread.frame_flags, FrameFlags::empty());
    thread.on_command(allow, true, overlay);
    assert!(thread.frame_flags.primary_scanout && !thread.frame_flags.overlay_scanout);
    thread.on_command(allow, true, NO_LIMITS);
    assert_eq!(thread.frame_flags, FrameFlags::allow_scanout());
    let deny = ThreadCommand::AllowFrameFlags(false, FrameFlags::allow_overlay_plane_scanout());
    thread.on_command(deny, true, NO_LIMITS);
    assert!(!thread.frame_flags.overlay_scanout);
    let mut thread: SurfaceThreadState<u32> = SurfaceThreadState::new(1, 10, NO_FILTER);
    thread.resume(overlay);
    assert!(!thread.frame_flags.overlay_scanout && thread.frame_flags.primary_scanout);
}

#[test]
fn messages_to_the_thread() {
    let mut thread: SurfaceThreadState<u32> = SurfaceThreadState::new(1, 10, NO_FILTER);
    let mut send = |command, startup_done| thread.on_command(command, startup_done, NO_LIMITS);
    assert!(matches!(
        send(ThreadCommand::AdaptiveSyncAvailable, true),
        CommandEffect::AdaptiveSyncInactive
    ));
    assert!(matches!(send(ThreadCommand::DpmsOff, true), CommandEffect::Nothing));
    assert!(matches!(send(ThreadCommand::UpdateHdrTuning(tuning()), true), CommandEffect::Nothing));
    assert!(matches!(send(ThreadCommand::Resume, true), CommandEffect::Resumed));
    assert!(matches!(
        send(ThreadCommand::AdaptiveSyncAvailable, true),
        CommandEffect::QueryAdaptiveSync
    ));
    assert!(matches!(send(ThreadCommand::ScheduleRender, false), CommandEffect::Nothing));
    assert!(matches!(send(ThreadCommand::ScheduleRender, true), CommandEffect::Schedule));
    assert!(matches!(send(ThreadCommand::UpdateHdrEnabled(true), true), CommandEffect::Nothing));
    assert!(matches!(
        send(ThreadCommand::UpdateHdrHardwarePath(true), true),
        CommandEffect::Schedule
    ));
    assert!(matches!(send(ThreadCommand::UpdateHdrTuning(tuning()), true), CommandEffect::Schedule));
    assert!(matches!(
        send(ThreadCommand::UseAdaptiveSync(AdaptiveSync::Force), true),
        CommandEffect::Nothing
    ));
    assert!(matches!(
        send(ThreadCommand::UpdateMirroring(Some(11)), true),
        CommandEffect::ClearTextures
    ));
    let filter = ScreenFilter { inverted: true, color_filter: Some(2) };
    assert!(matches!(
        send(ThreadCommand::UpdateScreenFilter(filter), true),
        CommandEffect::ClearTextures
    ));
    assert!(matches!(send(ThreadCommand::NodeAdded(4), true), CommandEffect::AddNode(4)));
    assert!(matches!(send(ThreadCommand::NodeRemoved(4), true), CommandEffect::RemoveNode(4)));
    assert!(matches!(
        send(ThreadCommand::VBlank(None), true),
        CommandEffect::Vblank(VblankStep::Ignored)
    ));
    assert!(matches!(send(ThreadCommand::DpmsOff, true), CommandEffect::SwitchedOff(_)));
    assert!(matches!(send(ThreadCommand::Suspend, true), CommandEffect::Suspended(_)));
    assert!(matches!(send(ThreadCommand::End, true), CommandEffect::Stop));
    assert!(thread.hdr_enabled);
    assert!(thread.hdr_hardware_path_active);
    assert_eq!(thread.tuning, tuning());
    assert_eq!(thread.vrr_mode, AdaptiveSync::Force);
    assert_eq!(thread.mirroring, Some(11));
    assert_eq!(thread.screen_filter, filter);
}

#[test]
fn shader_modes() {
    let filter = ScreenFilter { inverted: true, color_filter: Some(3) };
    let mode = |hdr, tuning, hardware| {
        postprocess_elements(false, filter, hdr, tuning, hardware, false).main.color_mode
    };
    assert_eq!(mode(false, tuning(), true), 3);
    assert_eq!(mode(true, tuning(), false), COLOR_MODE_HDR_SOFTWARE);
    assert_eq!(mode(true, tuning(), true), COLOR_MODE_HDR_HARDWARE);
    let vivid = HdrTuning { saturation: 102, ..tuning() };
    assert_eq!(mode(true, vivid, true), COLOR_MODE_HDR_HARDWARE_TUNED);
    let almost = HdrTuning { saturation: 101, midtone_gamma: 99, ..tuning() };
    assert_eq!(mode(true, almost, true), COLOR_MODE_HDR_HARDWARE);
    let dark = HdrTuning { midtone_gamma: 98, ..tuning() };
    assert_eq!(mode(true, dark, true), COLOR_MODE_HDR_HARDWARE_TUNED);
    let pattern = HdrTuning { test_pattern: true, ..tuning() };
    assert_eq!(mode(true, pattern, true), COLOR_MODE_HDR_TEST_PATTERN);
    assert_eq!(mode(true, pattern, false), COLOR_MODE_HDR_TEST_PATTERN);
    let none = postprocess_elements(false, NO_FILTER, false, tuning(), false, true);
    assert_eq!(none.main.color_mode, 0);
    assert!(!none.main.invert && !none.main.path_b_active);
    assert_eq!(none.cursor, None);
}

#[test]
fn the_cursor_is_never_linear() {
    let filter = ScreenFilter { inverted: true, color_filter: None };
    let plan = postprocess_elements(true, filter, true, tuning(), false, true);
    assert!(plan.main.path_b_active);
    let cursor = plan.cursor.unwrap();
    assert!(!cursor.path_b_active);
    assert!(cursor.invert && plan.main.invert);
    assert_eq!(cursor.color_mode, plan.main.color_mode);
    assert_eq!(cursor.tuning, tuning());
}

#[test]
fn leading_cursor_elements_are_counted() {
    assert_eq!(cursor_element_count(&vec![]), 0);
    assert_eq!(cursor_element_count(&vec![true, true, false, true]), 2);
    assert_eq!(cursor_element_count(&vec![false, true]), 0);
    assert_eq!(cursor_element_count(&vec![true]), 1);
}

#[test]
fn bounds_of_rectangles() {
    let rect = |x, y, w, h| Rect { x, y, w, h };
    assert_eq!(bounding_geometry(&vec![]), None);
    assert_eq!(bounding_geometry(&vec![rect(3, 4, 5, 6)]), Some(rect(3, 4, 5, 6)));
    assert_eq!(
        bounding_geometry(&vec![rect(3, 4, 5, 6), rect(-2, 8, 1, 9), rect(0, 0, 20, 1)]),
        Some(rect(-2, 0, 22, 17))
    );
}

#[test]
fn waiting_senders_are_answered_once() {
    let mut thread: SurfaceThreadState<u32> = SurfaceThreadState::new(1, 10, NO_FILTER);
    let mut answer =
        |command| thread.on_command(command, true, NO_LIMITS).owed_answer();
    assert_eq!(answer(ThreadCommand::AdaptiveSyncAvailable), Some(Answer::Inactive));
    assert_eq!(answer(ThreadCommand::Resume), None);
    assert_eq!(answer(ThreadCommand::AdaptiveSyncAvailable), Some(Answer::AdaptiveSyncSupport));
    assert_eq!(answer(ThreadCommand::NodeAdded(7)), Some(Answer::Done));
    assert_eq!(answer(ThreadCommand::NodeRemoved(7)), Some(Answer::Done));
    assert_eq!(answer(ThreadCommand::ScheduleRender), None);
    assert_eq!(answer(ThreadCommand::DpmsOff), None);
    assert_eq!(answer(ThreadCommand::Suspend), Some(Answer::Done));
    assert_eq!(answer(ThreadCommand::Suspend), Some(Answer::Done));
    assert_eq!(answer(ThreadCommand::End), None);
}

#[test]
fn renders_wait_for_the_startup() {
    let mut early = thread();
    let effect = early.on_command(ThreadCommand::ScheduleRender, false, NO_LIMITS);
    assert!(matches!(effect, CommandEffect::Nothing));
    assert_eq!(early, thread());
}
