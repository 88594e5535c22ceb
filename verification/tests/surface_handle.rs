use std::collections::HashSet;

use cosmic_comp::dmabuf_feedback::{get_surface_dmabuf_feedback, Format};
use cosmic_comp::output_config::{AdaptiveSync, HdrColorspace};
use cosmic_comp::output_power::{get_dpms, set_all_surfaces_dpms_on, set_dpms, OutputSurface};
use cosmic_comp::surface::{
    FrameFlags, HdrTuning, ScreenFilter, SurfaceCommand, ThreadCommand, VblankMetadata,
};
use cosmic_comp::surface_handle::Surface;

fn format(code: u32, modifier: u64) -> Format {
    Format { code, modifier }
}

#[test]
fn nodes_are_a_set() {
    let mut surface = Surface::new(10, 40, 1);
    assert!(surface.known_nodes().is_empty());
    assert_eq!(surface.add_node(5), ThreadCommand::NodeAdded(5));
    surface.add_node(6);
    surface.add_node(5);
    assert_eq!(surface.known_nodes().len(), 2);
    assert!(surface.known_nodes().contains(&5) && surface.known_nodes().contains(&6));
    assert_eq!(surface.remove_node(5), ThreadCommand::NodeRemoved(5));
    assert_eq!(surface.known_nodes(), &HashSet::from([6]));
    surface.remove_node(5);
    assert_eq!(surface.known_nodes(), &HashSet::from([6]));
}

#[test]
fn scanout_formats_are_offered_to_the_scanout_node() {
    let render = vec![format(1, 0), format(2, 0), format(2, 9)];
    let primary = vec![format(2, 9), format(3, 0), format(1, 0)];
    let overlay = Some(vec![format(3, 0), format(2, 0)]);
    let feedback = get_surface_dmabuf_feedback(7, 7, render.clone(), &primary, &overlay);
    assert_eq!(feedback.node, 7);
    assert_eq!(feedback.render, render);
    assert_eq!(feedback.primary_scanout, Some(vec![format(2, 9), format(1, 0)]));
    assert_eq!(feedback.overlay_scanout, Some(vec![format(2, 0)]));
    let feedback = get_surface_dmabuf_feedback(7, 7, render.clone(), &primary, &None);
    assert_eq!(feedback.overlay_scanout, None);
    let feedback = get_surface_dmabuf_feedback(7, 8, render.clone(), &primary, &overlay);
    assert_eq!(feedback.render, render);
    assert_eq!(feedback.primary_scanout, None);
    assert_eq!(feedback.overlay_scanout, None);
}

#[test]
fn feedback_is_kept_per_node() {
    let mut surface = Surface::new(10, 40, 1);
    surface.resume(vec![format(1, 0)], None);
    assert!(surface.cached_feedback(7).is_none());
    surface.ensure_feedback(7, 7, None);
    assert!(surface.cached_feedback(7).is_none());
    surface.ensure_feedback(7, 7, Some(vec![format(1, 0), format(2, 0)]));
    assert_eq!(
        surface.cached_feedback(7).unwrap().primary_scanout,
        Some(vec![format(1, 0)])
    );
    // What is known is not worked out again.
    surface.ensure_feedback(7, 7, Some(vec![]));
    assert_eq!(surface.cached_feedback(7).unwrap().render.len(), 2);
    surface.ensure_feedback(8, 7, Some(vec![format(3, 0)]));
    assert_eq!(surface.cached_feedback(8).unwrap().primary_scanout, None);
    surface.remove_node(7);
    assert!(surface.cached_feedback(7).is_none());
    assert!(surface.cached_feedback(8).is_some());
    surface.resume(vec![], Some(vec![]));
    assert!(surface.cached_feedback(8).is_none());
}

#[test]
fn messages_of_mirrors_are_dropped() {
    let command = SurfaceCommand::SendFrames(3);
    assert_eq!(Surface::on_surface_command(None, command), Some(command));
    assert_eq!(Surface::on_surface_command(Some(1), command), None);
    assert_eq!(
        Surface::on_surface_command(None, SurfaceCommand::RenderStates),
        Some(SurfaceCommand::RenderStates)
    );
}

#[test]
fn settings_are_sent_to_the_thread() {
    let mut surface = Surface::new(10, 40, 1);
    let metadata = Some(VblankMetadata { time: None, sequence: 1 });
    let filter = ScreenFilter { inverted: true, color_filter: None };
    let tuning = HdrTuning {
        colorspace: HdrColorspace::DciP3,
        ref_white: 203,
        gamut_strength: 50,
        saturation: 110,
        midtone_gamma: 90,
        test_pattern: false,
    };
    let flags = FrameFlags::allow_scanout();
    assert_eq!(surface.on_vblank(metadata), ThreadCommand::VBlank(metadata));
    assert_eq!(surface.set_mirroring(Some(4)), ThreadCommand::UpdateMirroring(Some(4)));
    assert_eq!(surface.set_screen_filter(filter), ThreadCommand::UpdateScreenFilter(filter));
    assert_eq!(surface.set_hdr_enabled(true), ThreadCommand::UpdateHdrEnabled(true));
    assert_eq!(surface.set_hdr_hardware_path(true), ThreadCommand::UpdateHdrHardwarePath(true));
    assert_eq!(surface.set_hdr_tuning(tuning), ThreadCommand::UpdateHdrTuning(tuning));
    assert_eq!(surface.adaptive_sync_support(), ThreadCommand::AdaptiveSyncAvailable);
    assert_eq!(
        surface.use_adaptive_sync(AdaptiveSync::Force),
        ThreadCommand::UseAdaptiveSync(AdaptiveSync::Force)
    );
    assert_eq!(
        surface.allow_frame_flags(false, flags),
        ThreadCommand::AllowFrameFlags(false, flags)
    );
    assert_eq!(surface.suspend(), ThreadCommand::Suspend);
    assert_eq!(surface.end(), ThreadCommand::End);
    assert_eq!(surface.schedule_render(), Some(ThreadCommand::ScheduleRender));
    surface.set_dpms(false);
    assert_eq!(surface.schedule_render(), None);
    assert_eq!(surface.resume(vec![], None), ThreadCommand::Resume);
    assert!(surface.get_dpms());
}

#[test]
fn power_switches_are_idempotent() {
    let mut surface = Surface::new(10, 40, 1);
    assert!(surface.get_dpms());
    assert_eq!(surface.set_dpms(true), None);
    assert_eq!(surface.set_dpms(false), Some(ThreadCommand::DpmsOff));
    assert_eq!(surface.set_dpms(false), None);
    assert!(!surface.get_dpms());
    assert_eq!(surface.set_dpms(true), Some(ThreadCommand::ScheduleRender));
}

fn surfaces() -> Vec<OutputSurface> {
    vec![
        OutputSurface { surface: Surface::new(10, 40, 1), mirroring: None },
        OutputSurface { surface: Surface::new(11, 41, 2), mirroring: Some(10) },
        OutputSurface { surface: Surface::new(12, 42, 3), mirroring: None },
    ]
}

#[test]
fn outputs_are_switched_with_their_mirrors() {
    let mut surfaces = surfaces();
    assert_eq!(get_dpms(&surfaces, 10), Some(true));
    assert_eq!(get_dpms(&surfaces, 99), None);
    assert_eq!(
        set_dpms(&mut surfaces, 10, false),
        vec![(0, ThreadCommand::DpmsOff), (1, ThreadCommand::DpmsOff)]
    );
    assert_eq!(get_dpms(&surfaces, 10), Some(false));
    assert!(!surfaces[1].surface.get_dpms());
    assert!(surfaces[2].surface.get_dpms());
    assert!(set_dpms(&mut surfaces, 10, false).is_empty());
    assert!(set_dpms(&mut surfaces, 99, false).is_empty());
    assert_eq!(
        set_all_surfaces_dpms_on(&mut surfaces),
        vec![(0, ThreadCommand::ScheduleRender), (1, ThreadCommand::ScheduleRender)]
    );
    assert!(surfaces.iter().all(|entry| entry.surface.get_dpms()));
    assert!(set_all_surfaces_dpms_on(&mut surfaces).is_empty());
}
