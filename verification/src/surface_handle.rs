//! The handle of an output's render thread on the main thread.
//!
//! Its methods return the messages that go to the render thread.
use std::collections::{HashMap, HashSet};

use vstd::prelude::*;

use crate::dmabuf_feedback;
use crate::dmabuf_feedback::{get_surface_dmabuf_feedback, Format, SurfaceDmabufFeedback};
use crate::output_config::AdaptiveSync;
use crate::surface::{
    FrameFlags, HdrTuning, ScreenFilter, SurfaceCommand, ThreadCommand, VblankMetadata,
};

verus! {

broadcast use vstd::std_specs::hash::group_hash_axioms;

/// The handle of a render thread. Outputs, nodes and the objects of the device are
/// given by numbers.
#[derive(Debug)]
pub struct Surface {
    pub connector: u32,
    pub crtc: u32,
    pub output: u64,
    pub known_nodes: HashSet<u64>,
    /// The feedback that was worked out already, by the node that buffers come from.
    pub feedback: HashMap<u64, SurfaceDmabufFeedback>,
    pub primary_plane_formats: Vec<Format>,
    pub overlay_plane_formats: Option<Vec<Format>>,
    pub dpms: bool,
}

impl Surface {
    /// Each feedback is listed under its node.
    pub open spec fn well_formed(&self) -> bool {
        forall|node: u64| #[trigger]
            self.feedback@.contains_key(node) ==> self.feedback@[node].node == node
    }

    pub open spec fn overlay_formats(&self) -> Option<Seq<Format>> {
        match self.overlay_plane_formats {
            Some(formats) => Some(formats@),
            None => None,
        }
    }

    /// The fields that only `resume` changes, and those that nothing changes.
    pub open spec fn same_identity(&self, other: &Surface) -> bool {
        &&& self.connector == other.connector
        &&& self.crtc == other.crtc
        &&& self.output == other.output
    }

    /// A handle of a new render thread.
    pub fn new(output: u64, crtc: u32, connector: u32) -> (surface: Surface)
        ensures
            surface.well_formed(),
            surface.connector == connector,
            surface.crtc == crtc,
            surface.output == output,
            surface.known_nodes@ == Set::<u64>::empty(),
            surface.feedback@ == Map::<u64, SurfaceDmabufFeedback>::empty(),
            surface.primary_plane_formats@.len() == 0,
            surface.overlay_plane_formats is None,
            surface.dpms,
    {
        Surface {
            connector,
            crtc,
            output,
            known_nodes: HashSet::new(),
            feedback: HashMap::new(),
            primary_plane_formats: Vec::new(),
            overlay_plane_formats: None,
            dpms: true,
        }
    }

    /// What a message from the render thread asks for. Where the output mirrors
    /// another one, that one takes care of it.
    pub fn on_surface_command(mirroring: Option<u64>, command: SurfaceCommand) -> (accepted: Option<
        SurfaceCommand,
    >)
        ensures
            accepted == (if mirroring is None {
                Some(command)
            } else {
                None
            }),
    {
        if mirroring.is_some() {
            None
        } else {
            Some(command)
        }
    }

    /// The nodes that buffers may come from.
    pub fn known_nodes(&self) -> (nodes: &HashSet<u64>)
        ensures
            *nodes == self.known_nodes,
    {
        &self.known_nodes
    }

    /// Adds a node that buffers may come from.
    pub fn add_node(&mut self, node: u64) -> (command: ThreadCommand)
        requires
            old(self).well_formed(),
        ensures
            final(self).well_formed(),
            final(self).known_nodes@ == old(self).known_nodes@.insert(node),
            *final(self) == (Surface { known_nodes: final(self).known_nodes, ..*old(self) }),
            command == ThreadCommand::NodeAdded(node),
    {
        self.known_nodes.insert(node);
        ThreadCommand::NodeAdded(node)
    }

    /// Removes a node, together with the feedback for it.
    pub fn remove_node(&mut self, node: u64) -> (command: ThreadCommand)
        requires
            old(self).well_formed(),
        ensures
            final(self).well_formed(),
            final(self).known_nodes@ == old(self).known_nodes@.remove(node),
            final(self).feedback@ == old(self).feedback@.remove(node),
            *final(self) == (Surface {
                known_nodes: final(self).known_nodes,
                feedback: final(self).feedback,
                ..*old(self)
            }),
            command == ThreadCommand::NodeRemoved(node),
    {
        self.known_nodes.remove(&node);
        self.feedback.remove(&node);
        proof {
            assert forall|other: u64| #[trigger] self.feedback@.contains_key(other) implies
                self.feedback@[other].node == other by {
                assert(old(self).feedback@.contains_key(other));
            }
        }
        ThreadCommand::NodeRemoved(node)
    }

    /// The feedback for surfaces whose buffers come from a node, if it was worked
    /// out already.
    pub fn cached_feedback(&self, node: u64) -> (feedback: Option<&SurfaceDmabufFeedback>)
        ensures
            feedback == (if self.feedback@.contains_key(node) {
                Some(&self.feedback@[node])
            } else {
                None
            }),
    {
        self.feedback.get(&node)
    }

    /// Works out the feedback for a node that there is none for yet. Where the node
    /// was freed, its formats are not known, and there is still none.
    pub fn ensure_feedback(
        &mut self,
        node: u64,
        target_node: u64,
        render_formats: Option<Vec<Format>>,
    )
        requires
            old(self).well_formed(),
        ensures
            final(self).well_formed(),
            *final(self) == (Surface { feedback: final(self).feedback, ..*old(self) }),
            match render_formats {
                Some(formats) if !old(self).feedback@.contains_key(node) => {
                    &&& final(self).feedback@ == old(self).feedback@.insert(
                        node,
                        final(self).feedback@[node],
                    )
                    &&& dmabuf_feedback::is_feedback_for(
                        final(self).feedback@[node],
                        node,
                        target_node,
                        formats@,
                        old(self).primary_plane_formats@,
                        old(self).overlay_formats(),
                    )
                },
                _ => final(self).feedback@ == old(self).feedback@,
            },
    {
        if !self.feedback.contains_key(&node) {
            if let Some(formats) = render_formats {
                let feedback: SurfaceDmabufFeedback = get_surface_dmabuf_feedback(
                    node,
                    target_node,
                    formats,
                    &self.primary_plane_formats,
                    &self.overlay_plane_formats,
                );
                self.feedback.insert(node, feedback);
                proof {
                    assert forall|other: u64| #[trigger] self.feedback@.contains_key(other) implies
                        self.feedback@[other].node == other by {
                        assert(other == node || old(self).feedback@.contains_key(other));
                    }
                }
            }
        }
    }

    pub fn on_vblank(&self, metadata: Option<VblankMetadata>) -> (command: ThreadCommand)
        ensures
            command == ThreadCommand::VBlank(metadata),
    {
        ThreadCommand::VBlank(metadata)
    }

    /// Asks for a render, unless the screen is off.
    pub fn schedule_render(&self) -> (command: Option<ThreadCommand>)
        ensures
            command == (if self.dpms {
                Some(ThreadCommand::ScheduleRender)
            } else {
                None
            }),
    {
        if self.dpms {
            Some(ThreadCommand::ScheduleRender)
        } else {
            None
        }
    }

    pub fn set_mirroring(&self, output: Option<u64>) -> (command: ThreadCommand)
        ensures
            command == ThreadCommand::UpdateMirroring(output),
    {
        ThreadCommand::UpdateMirroring(output)
    }

    pub fn set_screen_filter(&self, config: ScreenFilter) -> (command: ThreadCommand)
        ensures
            command == ThreadCommand::UpdateScreenFilter(config),
    {
        ThreadCommand::UpdateScreenFilter(config)
    }

    /// Tells whether the CRTC does the HDR encoding.
    pub fn set_hdr_hardware_path(&self, active: bool) -> (command: ThreadCommand)
        ensures
            command == ThreadCommand::UpdateHdrHardwarePath(active),
    {
        ThreadCommand::UpdateHdrHardwarePath(active)
    }

    pub fn set_hdr_enabled(&self, enabled: bool) -> (command: ThreadCommand)
        ensures
            command == ThreadCommand::UpdateHdrEnabled(enabled),
    {
        ThreadCommand::UpdateHdrEnabled(enabled)
    }

    pub fn set_hdr_tuning(&self, tuning: HdrTuning) -> (command: ThreadCommand)
        ensures
            command == ThreadCommand::UpdateHdrTuning(tuning),
    {
        ThreadCommand::UpdateHdrTuning(tuning)
    }

    pub fn adaptive_sync_support(&self) -> (command: ThreadCommand)
        ensures
            command == ThreadCommand::AdaptiveSyncAvailable,
    {
        ThreadCommand::AdaptiveSyncAvailable
    }

    pub fn use_adaptive_sync(&self, vrr: AdaptiveSync) -> (command: ThreadCommand)
        ensures
            command == ThreadCommand::UseAdaptiveSync(vrr),
    {
        ThreadCommand::UseAdaptiveSync(vrr)
    }

    pub fn allow_frame_flags(&self, flag: bool, flags: FrameFlags) -> (command: ThreadCommand)
        ensures
            command == ThreadCommand::AllowFrameFlags(flag, flags),
    {
        ThreadCommand::AllowFrameFlags(flag, flags)
    }

    pub fn suspend(&self) -> (command: ThreadCommand)
        ensures
            command == ThreadCommand::Suspend,
    {
        ThreadCommand::Suspend
    }

    /// Resumes with the formats of the planes. The feedback so far is outdated, and
    /// the screen is on.
    pub fn resume(
        &mut self,
        primary_plane_formats: Vec<Format>,
        overlay_plane_formats: Option<Vec<Format>>,
    ) -> (command: ThreadCommand)
        requires
            old(self).well_formed(),
        ensures
            final(self).well_formed(),
            final(self).same_identity(old(self)),
            final(self).known_nodes == old(self).known_nodes,
            final(self).feedback@ == Map::<u64, SurfaceDmabufFeedback>::empty(),
            final(self).primary_plane_formats == primary_plane_formats,
            final(self).overlay_plane_formats == overlay_plane_formats,
            final(self).dpms,
            command == ThreadCommand::Resume,
    {
        self.primary_plane_formats = primary_plane_formats;
        self.overlay_plane_formats = overlay_plane_formats;
        self.feedback.clear();
        self.dpms = true;
        ThreadCommand::Resume
    }

    /// The message that ends the render thread when the handle is dropped.
    pub fn end(&self) -> (command: ThreadCommand)
        ensures
            command == ThreadCommand::End,
    {
        ThreadCommand::End
    }

    /// Whether the screen is on.
    pub fn get_dpms(&self) -> (on: bool)
        ensures
            on == self.dpms,
    {
        self.dpms
    }

    /// The message by which a change of the power state takes effect.
    pub open spec fn power_command(self, on: bool) -> Option<ThreadCommand> {
        if self.dpms == on {
            None
        } else if on {
            Some(ThreadCommand::ScheduleRender)
        } else {
            Some(ThreadCommand::DpmsOff)
        }
    }

    /// Switches the screen on or off.
    pub fn set_dpms(&mut self, on: bool) -> (command: Option<ThreadCommand>)
        ensures
            *final(self) == (Surface { dpms: on, ..*old(self) }),
            command == old(self).power_command(on),
    {
        if self.dpms != on {
            self.dpms = on;
            if on {
                self.schedule_render()
            } else {
                Some(ThreadCommand::DpmsOff)
            }
        } else {
            None
        }
    }
}

/// Switching a screen to the state that it is in does nothing, and switching it
/// twice is switching it once.
pub proof fn lemma_power_is_idempotent(surface: Surface, on: bool)
    ensures
        surface.dpms == on ==> surface.power_command(on) is None,
        (Surface { dpms: on, ..surface }).power_command(on) is None,
{
}

/// A change of the power state always reaches the thread: a screen that was on is
/// switched off by the message for that, and one that was off is woken by a request for a
/// render.
pub proof fn lemma_power_changes_are_sent(surface: Surface)
    ensures
        surface.dpms ==> surface.power_command(false) == Some(ThreadCommand::DpmsOff),
        surface.dpms ==> surface.power_command(true) is None,
        !surface.dpms ==> surface.power_command(true) == Some(ThreadCommand::ScheduleRender),
        !surface.dpms ==> surface.power_command(false) is None,
{
}

/// The message depends on nothing but the power state.
pub proof fn lemma_power_depends_on_the_state(a: Surface, b: Surface, on: bool)
    requires
        a.dpms == b.dpms,
    ensures
        a.power_command(on) == b.power_command(on),
{
}

} // verus!
