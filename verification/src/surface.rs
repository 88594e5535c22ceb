//! The per-output render thread as a state machine, and its handle on the main
//! thread.
//!
//! The event loop around it owns the timers, the compositor and the renderers. It
//! hands events in, carries out what comes back, and reports the tokens of the
//! timers that it inserts.
use vstd::prelude::*;

use crate::output_config::{AdaptiveSync, HdrColorspace};

verus! {

// ---------------------------------------------------------------------------
// Frame flags
// ---------------------------------------------------------------------------

/// How a frame may be brought to the screen.
#[derive(Debug, Clone, Copy, PartialEq, Eq, Structural)]
pub struct FrameFlags {
    /// Elements may take the primary plane, in the format of the swapchain.
    pub primary_scanout: bool,
    /// Elements may take the primary plane, in any format.
    pub primary_scanout_any: bool,
    pub overlay_scanout: bool,
    pub cursor_scanout: bool,
    /// A frame in which only the cursor moved is not shown.
    pub skip_cursor_only_updates: bool,
}

impl FrameFlags {
    pub open spec fn none() -> FrameFlags {
        FrameFlags {
            primary_scanout: false,
            primary_scanout_any: false,
            overlay_scanout: false,
            cursor_scanout: false,
            skip_cursor_only_updates: false,
        }
    }

    /// Elements may take any plane.
    pub open spec fn scanout() -> FrameFlags {
        FrameFlags {
            primary_scanout: true,
            overlay_scanout: true,
            cursor_scanout: true,
            ..FrameFlags::none()
        }
    }

    pub open spec fn overlay() -> FrameFlags {
        FrameFlags { overlay_scanout: true, ..FrameFlags::none() }
    }

    pub open spec fn with(self, other: FrameFlags) -> FrameFlags {
        FrameFlags {
            primary_scanout: self.primary_scanout || other.primary_scanout,
            primary_scanout_any: self.primary_scanout_any || other.primary_scanout_any,
            overlay_scanout: self.overlay_scanout || other.overlay_scanout,
            cursor_scanout: self.cursor_scanout || other.cursor_scanout,
            skip_cursor_only_updates: self.skip_cursor_only_updates
                || other.skip_cursor_only_updates,
        }
    }

    pub open spec fn without(self, other: FrameFlags) -> FrameFlags {
        FrameFlags {
            primary_scanout: self.primary_scanout && !other.primary_scanout,
            primary_scanout_any: self.primary_scanout_any && !other.primary_scanout_any,
            overlay_scanout: self.overlay_scanout && !other.overlay_scanout,
            cursor_scanout: self.cursor_scanout && !other.cursor_scanout,
            skip_cursor_only_updates: self.skip_cursor_only_updates
                && !other.skip_cursor_only_updates,
        }
    }

    pub fn empty() -> (flags: FrameFlags)
        ensures
            flags == FrameFlags::none(),
    {
        FrameFlags {
            primary_scanout: false,
            primary_scanout_any: false,
            overlay_scanout: false,
            cursor_scanout: false,
            skip_cursor_only_updates: false,
        }
    }

    /// The flags by which elements may take any plane, which is the default.
    pub fn allow_scanout() -> (flags: FrameFlags)
        ensures
            flags == FrameFlags::scanout(),
    {
        FrameFlags {
            primary_scanout: true,
            primary_scanout_any: false,
            overlay_scanout: true,
            cursor_scanout: true,
            skip_cursor_only_updates: false,
        }
    }

    pub fn allow_overlay_plane_scanout() -> (flags: FrameFlags)
        ensures
            flags == FrameFlags::overlay(),
    {
        FrameFlags {
            primary_scanout: false,
            primary_scanout_any: false,
            overlay_scanout: true,
            cursor_scanout: false,
            skip_cursor_only_updates: false,
        }
    }

    pub fn union(self, other: FrameFlags) -> (flags: FrameFlags)
        ensures
            flags == self.with(other),
    {
        FrameFlags {
            primary_scanout: self.primary_scanout || other.primary_scanout,
            primary_scanout_any: self.primary_scanout_any || other.primary_scanout_any,
            overlay_scanout: self.overlay_scanout || other.overlay_scanout,
            cursor_scanout: self.cursor_scanout || other.cursor_scanout,
            skip_cursor_only_updates: self.skip_cursor_only_updates
                || other.skip_cursor_only_updates,
        }
    }

    pub fn difference(self, other: FrameFlags) -> (flags: FrameFlags)
        ensures
            flags == self.without(other),
    {
        FrameFlags {
            primary_scanout: self.primary_scanout && !other.primary_scanout,
            primary_scanout_any: self.primary_scanout_any && !other.primary_scanout_any,
            overlay_scanout: self.overlay_scanout && !other.overlay_scanout,
            cursor_scanout: self.cursor_scanout && !other.cursor_scanout,
            skip_cursor_only_updates: self.skip_cursor_only_updates
                && !other.skip_cursor_only_updates,
        }
    }
}

/// What the environment forbids: any plane, or the overlay planes, for elements.
#[derive(Debug, Clone, Copy, PartialEq, Eq, Structural)]
pub struct ScanoutLimits {
    pub no_direct_scanout: bool,
    pub no_overlay_scanout: bool,
}

// ---------------------------------------------------------------------------
// Settings
// ---------------------------------------------------------------------------

/// A filter over the whole screen. A color filter is given by its number.
#[derive(Debug, Clone, Copy, PartialEq, Eq, Structural)]
pub struct ScreenFilter {
    pub inverted: bool,
    pub color_filter: Option<u8>,
}

impl ScreenFilter {
    pub open spec fn noop(self) -> bool {
        !self.inverted && self.color_filter is None
    }

    pub fn is_noop(&self) -> (noop: bool)
        ensures
            noop == self.noop(),
    {
        !self.inverted && self.color_filter.is_none()
    }
}

/// The settings that a user can turn while HDR is on.
#[derive(Debug, Clone, Copy, PartialEq, Eq, Structural)]
pub struct HdrTuning {
    pub colorspace: HdrColorspace,
    /// In cd/m².
    pub ref_white: u32,
    /// The strength of the gamut remap in percent.
    pub gamut_strength: u8,
    /// In percent; 100 is neutral.
    pub saturation: u8,
    /// In percent; 100 is neutral, less lifts the midtones.
    pub midtone_gamma: u8,
    pub test_pattern: bool,
}

/// The tuning that a render thread starts with.
pub open spec fn initial_tuning() -> HdrTuning {
    HdrTuning {
        colorspace: HdrColorspace::Bt2020,
        ref_white: 250,
        gamut_strength: 100,
        saturation: 120,
        midtone_gamma: 70,
        test_pattern: false,
    }
}

// ---------------------------------------------------------------------------
// Queue state
// ---------------------------------------------------------------------------

/// What the render thread waits for. `T` is the token of a timer.
#[derive(Debug, Copy, PartialEq, Eq, Structural)]
pub enum QueueState<T> {
    Idle,
    /// A redraw is queued.
    Queued(T),
    /// A frame was submitted and is not on the screen yet.
    WaitingForVBlank { redraw_needed: bool },
    /// Nothing was submitted, and a timer fires when the next frame could have
    /// been shown.
    WaitingForEstimatedVBlank(T),
    /// A redraw is queued on top of that.
    WaitingForEstimatedVBlankAndQueued { estimated_vblank: T, queued_render: T },
}

impl<T: Copy> Clone for QueueState<T> {
    fn clone(&self) -> (state: Self)
        ensures
            state == *self,
    {
        *self
    }
}

impl<T> QueueState<T> {
    /// The timers that the state holds.
    pub open spec fn timers(self) -> Seq<T> {
        match self {
            QueueState::Idle => Seq::empty(),
            QueueState::Queued(token) => seq![token],
            QueueState::WaitingForVBlank { .. } => Seq::empty(),
            QueueState::WaitingForEstimatedVBlank(token) => seq![token],
            QueueState::WaitingForEstimatedVBlankAndQueued {
                estimated_vblank,
                queued_render,
            } => seq![estimated_vblank, queued_render],
        }
    }

    /// The timer of the queued redraw.
    pub open spec fn render_timer(self) -> Option<T> {
        match self {
            QueueState::Queued(token) => Some(token),
            QueueState::WaitingForEstimatedVBlankAndQueued { queued_render, .. } => Some(
                queued_render,
            ),
            _ => None,
        }
    }

    /// The timer of the estimated vblank.
    pub open spec fn estimate_timer(self) -> Option<T> {
        match self {
            QueueState::WaitingForEstimatedVBlank(token) => Some(token),
            QueueState::WaitingForEstimatedVBlankAndQueued { estimated_vblank, .. } => Some(
                estimated_vblank,
            ),
            _ => None,
        }
    }

    /// The state after a request for a redraw, and whether a timer for the redraw
    /// is to be inserted. While a frame is on its way to the screen the request is
    /// only noted; a redraw that is queued already is not queued again, unless the
    /// request is forced.
    pub open spec fn requested(self, force: bool) -> (QueueState<T>, bool) {
        match self {
            QueueState::WaitingForVBlank { .. } => (
                QueueState::WaitingForVBlank { redraw_needed: true },
                false,
            ),
            QueueState::Idle | QueueState::WaitingForEstimatedVBlank(_) => (self, true),
            _ => (self, force),
        }
    }

    /// The state once a timer for the redraw was inserted.
    pub open spec fn scheduled(self, token: T) -> QueueState<T> {
        match self {
            QueueState::WaitingForEstimatedVBlank(estimated_vblank) => {
                QueueState::WaitingForEstimatedVBlankAndQueued {
                    estimated_vblank,
                    queued_render: token,
                }
            },
            QueueState::WaitingForEstimatedVBlankAndQueued { estimated_vblank, .. } => {
                QueueState::WaitingForEstimatedVBlankAndQueued {
                    estimated_vblank,
                    queued_render: token,
                }
            },
            _ => QueueState::Queued(token),
        }
    }

    /// The state once the timer of an estimated vblank fired.
    pub open spec fn estimate_fired(self) -> QueueState<T> {
        match self {
            QueueState::WaitingForEstimatedVBlankAndQueued { queued_render, .. } => {
                QueueState::Queued(queued_render)
            },
            _ => QueueState::Idle,
        }
    }

    /// The state after a redraw that had nothing to submit, before a timer for the
    /// estimated vblank is inserted where there is none.
    pub open spec fn redraw_was_empty(self) -> QueueState<T> {
        match self.estimate_timer() {
            Some(token) => QueueState::WaitingForEstimatedVBlank(token),
            None => QueueState::Idle,
        }
    }
}

/// What is left to do when the state was dropped.
#[derive(Debug)]
pub struct Cancelled<T> {
    /// The timers to remove.
    pub timers: Vec<T>,
    /// Whether the timings of the current frame are to be discarded.
    pub discard_frame: bool,
}

fn cancel<T: Copy>(state: QueueState<T>) -> (cancelled: Cancelled<T>)
    ensures
        cancelled.timers@ == state.timers(),
        cancelled.discard_frame == (state is WaitingForVBlank),
{
    let mut timers: Vec<T> = Vec::new();
    let mut discard_frame: bool = false;
    match state {
        QueueState::Idle => {},
        QueueState::Queued(token) | QueueState::WaitingForEstimatedVBlank(token) => {
            timers.push(token);
        },
        QueueState::WaitingForVBlank { .. } => {
            discard_frame = true;
        },
        QueueState::WaitingForEstimatedVBlankAndQueued { estimated_vblank, queued_render } => {
            timers.push(estimated_vblank);
            timers.push(queued_render);
        },
    }
    assert(timers@ =~= state.timers());
    Cancelled { timers, discard_frame }
}

// ---------------------------------------------------------------------------
// Presentation
// ---------------------------------------------------------------------------

/// When a frame came to the screen, as far as the device says. Times are in
/// nanoseconds of the monotonic clock.
#[derive(Debug, Clone, Copy, PartialEq, Eq, Structural)]
pub struct VblankMetadata {
    /// Absent where the device does not use the monotonic clock.
    pub time: Option<u64>,
    pub sequence: u32,
}

/// The refresh rate of an output, in nanoseconds between frames.
#[derive(Debug, Clone, Copy, PartialEq, Eq, Structural)]
pub enum Refresh {
    Variable(u64),
    Fixed(u64),
    Unknown,
}

/// What clients are told about the presentation of a frame.
#[derive(Debug, Clone, Copy, PartialEq, Eq, Structural)]
pub struct Presentation {
    pub time: u64,
    /// Whether the time is that of the device. (That the frame was synchronized
    /// and that the device reported its completion holds of every frame.)
    pub hw_clock: bool,
    pub refresh: Refresh,
    pub sequence: u64,
}

/// The nanoseconds between the frames at a rate in millihertz, rounded to the nearest.
/// Half a nanosecond is left over only at 8.192 Hz times a power of five. It is dropped
/// up to 1024 Hz, where the interval in seconds is a binary fraction, and rounded up
/// beyond.
pub open spec fn interval_nanos(millihertz: int) -> int {
    let whole = 1000000000000int / millihertz;
    let rest = 1000000000000int % millihertz;
    if 2 * rest < millihertz || (2 * rest == millihertz && millihertz <= 1024000) {
        whole
    } else {
        whole + 1
    }
}

/// The nanoseconds between the frames at a rate in millihertz.
pub fn refresh_interval(millihertz: u32) -> (nanos: u64)
    requires
        millihertz > 0,
    ensures
        nanos == interval_nanos(millihertz as int),
{
    let rate: u64 = millihertz as u64;
    let whole: u64 = 1000000000000 / rate;
    let rest: u64 = 1000000000000 % rate;
    if 2 * rest < rate || (2 * rest == rate && rate <= 1024000) {
        whole
    } else {
        whole + 1
    }
}

/// The longest interval between frames: two frames above the least rate in Hz of
/// the screen, but at least a thirtieth of a second, which is also taken where
/// the least rate is not known.
pub open spec fn longest_interval(min_hz: Option<u32>) -> int {
    match min_hz {
        Some(hz) => {
            let nanos = (2 * 1000000000 + (hz + 2)) / (2 * (hz + 2));
            if nanos >= 33333333 {
                nanos
            } else {
                33333333
            }
        },
        None => 33333333,
    }
}

/// The longest interval between frames, in nanoseconds.
pub fn min_refresh_interval(min_hz: Option<u32>) -> (nanos: u64)
    requires
        min_hz matches Some(hz) ==> hz + 2 <= u32::MAX,
    ensures
        nanos == longest_interval(min_hz),
{
    match min_hz {
        Some(hz) => {
            let rate: u64 = hz as u64 + 2;
            let nanos: u64 = (2000000000 + rate) / (2 * rate);
            if nanos >= 33333333 {
                nanos
            } else {
                33333333
            }
        },
        None => 33333333,
    }
}

/// The presentation of a frame. Without a time of the device the current time
/// stands for it. `rate` is the refresh rate of the output in millihertz.
pub open spec fn presentation_of(
    metadata: Option<VblankMetadata>,
    now: u64,
    rate: Option<u32>,
    vrr_enabled: bool,
) -> Presentation {
    let time = match metadata {
        Some(data) => data.time,
        None => None,
    };
    Presentation {
        time: match time {
            Some(time) => time,
            None => now,
        },
        hw_clock: time is Some,
        refresh: match rate {
            Some(rate) => if vrr_enabled {
                Refresh::Variable(interval_nanos(rate as int) as u64)
            } else {
                Refresh::Fixed(interval_nanos(rate as int) as u64)
            },
            None => Refresh::Unknown,
        },
        sequence: match metadata {
            Some(data) => data.sequence as u64,
            None => 0,
        },
    }
}

// ---------------------------------------------------------------------------
// Frames
// ---------------------------------------------------------------------------

/// The windows that decide where an output is rendered, each given by the node
/// that its buffer comes from: the fullscreen window alone, where there is one.
#[derive(Debug)]
pub enum WorkspaceNodes {
    /// The output shows no workspace.
    NoWorkspace,
    Windows(Vec<Option<u64>>),
}

/// A frame is rendered on the node that scans it out, unless that is not the
/// primary node and all buffers come from other nodes.
pub open spec fn render_node(primary: u64, target: u64, workspace: WorkspaceNodes) -> u64 {
    if target == primary {
        target
    } else {
        match workspace {
            WorkspaceNodes::NoWorkspace => target,
            WorkspaceNodes::Windows(nodes) => if nodes@.contains(Some(target)) || forall|i: int|
                0 <= i < nodes@.len() ==> #[trigger] nodes@[i] is None {
                target
            } else {
                primary
            },
        }
    }
}

/// The node that a frame is rendered on.
pub fn render_node_for_output(primary: u64, target: u64, workspace: &WorkspaceNodes) -> (node: u64)
    ensures
        node == render_node(primary, target, *workspace),
{
    if target == primary {
        return target;
    }
    match workspace {
        WorkspaceNodes::NoWorkspace => target,
        WorkspaceNodes::Windows(nodes) => {
            let mut any: bool = false;
            let mut i: usize = 0;
            while i < nodes.len()
                invariant
                    i <= nodes@.len(),
                    any == exists|j: int| 0 <= j < i && #[trigger] nodes@[j] is Some,
                    forall|j: int| 0 <= j < i ==> #[trigger] nodes@[j] != Some(target),
                    *workspace == WorkspaceNodes::Windows(*nodes),
                    target != primary,
                decreases nodes@.len() - i,
            {
                match nodes[i] {
                    Some(node) => {
                        if node == target {
                            assert(nodes@[i as int] == Some(target));
                            return target;
                        }
                        assert(nodes@[i as int] is Some);
                        any = true;
                    },
                    None => {},
                }
                i += 1;
            }
            assert(!nodes@.contains(Some(target)));
            if any {
                primary
            } else {
                target
            }
        },
    }
}

/// What a frame depends on beside the state of its render thread.
#[derive(Debug)]
pub struct FrameInputs {
    /// The primary node, where there is one.
    pub primary_node: Option<u64>,
    pub workspace: WorkspaceNodes,
    pub animations_going: bool,
    /// The fullscreen window, with its estimated time between frames in
    /// nanoseconds.
    pub fullscreen: Option<Option<u64>>,
    /// Whether the next frame has to be rendered even without new content.
    pub past_min_render_time: bool,
    /// Whether scene-linear compositing is on.
    pub path_b: bool,
    /// The format of the swapchain.
    pub swapchain_format: u32,
    /// Whether what is mirrored has another size or scale than the output.
    pub mirror_differs: bool,
}

/// The code of the format with four 16-bit floating-point channels.
pub const ABGR16161616F: u32 = 0x4834_4241;

/// The longest time between frames, in nanoseconds, at which a fullscreen window
/// counts as driving the refresh rate.
pub const SLOWEST_DRIVING_FRAME: u64 = 33333333;

/// A picture that is rendered before the frame itself.
#[derive(Debug, Clone, Copy, PartialEq, Eq, Structural)]
pub struct OffscreenPass {
    /// The output whose content it shows.
    pub source: u64,
    pub format: u32,
}

/// How a frame is rendered.
#[derive(Debug, Clone, Copy, PartialEq, Eq, Structural)]
pub struct FramePlan {
    pub render_node: u64,
    pub vrr: bool,
    pub flags: FrameFlags,
    /// Whether a frame in which only the cursor moved is skipped on purpose.
    pub skips_cursor_only: bool,
    /// The reference white of the HDR context that elements are built in.
    pub hdr_context: Option<u32>,
    pub offscreen: Option<OffscreenPass>,
    /// Whether pending screen captures are served from this frame.
    pub serves_captures: bool,
    /// The reference white that captures have to undo; zero where there is none.
    pub capture_white: u32,
}

/// What came of handing a frame to the device.
#[derive(Debug, Clone, Copy, PartialEq, Eq, Structural)]
pub enum QueueOutcome {
    Queued,
    /// There was nothing new to show.
    EmptyFrame,
}

/// What is left to do once a frame was handed to the device.
#[derive(Debug, PartialEq, Eq, Structural)]
pub struct FrameEffects<T> {
    /// A timer to remove.
    pub remove: Option<T>,
    /// The number of the frame callbacks to send.
    pub callbacks: Option<usize>,
    /// Whether the main thread is told what the elements were shown on.
    pub sends_states: bool,
    /// Whether a timer for the estimated vblank is to be inserted, and whether it
    /// then asks for a redraw in any case.
    pub estimate: Option<bool>,
}

/// Where a redraw failed.
#[derive(Debug, Clone, Copy, PartialEq, Eq, Structural)]
pub enum RedrawFailure {
    /// Before anything was rendered, or after the frame was handed to the device.
    Aside,
    /// The frame could not be rendered.
    Rendering,
    /// The device did not take the frame.
    Submission,
}

/// What is left to do when a redraw failed.
#[derive(Debug, Clone, Copy, PartialEq, Eq, Structural)]
pub struct FailureEffects {
    /// Whether the buffers of the swapchain are given up.
    pub reset_buffers: bool,
    /// Whether clients are told that their captures failed.
    pub fail_captures: bool,
    /// Whether a timer for another redraw is to be inserted.
    pub schedule: bool,
}

/// The delay of the timer for the estimated vblank: the time up to the estimated
/// presentation, or a whole interval where that has passed.
pub open spec fn estimate_delay(target: u64, now: u64, interval: u64) -> int {
    if target > now {
        target - now
    } else {
        interval as int
    }
}

pub fn estimated_vblank_delay(target: u64, now: u64, interval: u64) -> (delay: u64)
    ensures
        delay == estimate_delay(target, now, interval),
{
    if target > now {
        target - now
    } else {
        interval
    }
}

// ---------------------------------------------------------------------------
// The render thread
// ---------------------------------------------------------------------------

/// A message to the render thread. Outputs and nodes are given by numbers.
#[derive(Debug, Clone, Copy, PartialEq, Eq, Structural)]
pub enum ThreadCommand {
    Suspend,
    Resume,
    NodeAdded(u64),
    NodeRemoved(u64),
    UpdateMirroring(Option<u64>),
    UpdateScreenFilter(ScreenFilter),
    UpdateHdrEnabled(bool),
    UpdateHdrHardwarePath(bool),
    UpdateHdrTuning(HdrTuning),
    VBlank(Option<VblankMetadata>),
    ScheduleRender,
    AdaptiveSyncAvailable,
    UseAdaptiveSync(AdaptiveSync),
    AllowFrameFlags(bool, FrameFlags),
    End,
    DpmsOff,
}

/// What the sender of a message is told.
#[derive(Debug, Clone, Copy, PartialEq, Eq, Structural)]
pub enum Answer {
    /// The message was met.
    Done,
    /// Whether the screen supports adaptive sync, as far as the screen can tell.
    AdaptiveSyncSupport,
    /// The surface is not active.
    Inactive,
}

impl ThreadCommand {
    /// The sender waits until it is answered.
    pub open spec fn awaits_answer(self) -> bool {
        self is Suspend || self is NodeAdded || self is NodeRemoved || self is AdaptiveSyncAvailable
    }

    /// The one answer to a message, if it is answered. A node that could not be added is
    /// answered like any other.
    pub open spec fn answer(self, active: bool) -> Option<Answer> {
        match self {
            ThreadCommand::Suspend => Some(Answer::Done),
            ThreadCommand::NodeAdded(_) => Some(Answer::Done),
            ThreadCommand::NodeRemoved(_) => Some(Answer::Done),
            ThreadCommand::AdaptiveSyncAvailable => if active {
                Some(Answer::AdaptiveSyncSupport)
            } else {
                Some(Answer::Inactive)
            },
            _ => None,
        }
    }
}

/// A message from the render thread.
#[derive(Debug, Clone, Copy, PartialEq, Eq, Structural)]
pub enum SurfaceCommand {
    SendFrames(usize),
    RenderStates,
}

/// How the report of a vblank is met.
#[derive(Debug)]
pub enum VblankStep<T> {
    /// No frame is on its way.
    Ignored,
    /// A leftover from before a suspension; the timers are to be removed.
    Reset(Vec<T>),
    /// The submitted frame came to the screen.
    Present,
}

/// What is left to do after a vblank or an estimated one.
#[derive(Debug, Clone, Copy, PartialEq, Eq, Structural)]
pub struct VblankEffects {
    /// Whether a timer for a redraw is to be inserted.
    pub schedule: bool,
    /// The number of the frame callbacks to send.
    pub callbacks: Option<usize>,
}

/// What the event loop does for a message.
#[derive(Debug)]
pub enum CommandEffect<T> {
    Nothing,
    /// Insert a timer for a redraw.
    Schedule,
    /// Drop the compositor and answer the sender.
    Suspended(Cancelled<T>),
    /// Clear the screen.
    SwitchedOff(Cancelled<T>),
    Resumed,
    AddNode(u64),
    RemoveNode(u64),
    /// Drop the textures of the postprocessing.
    ClearTextures,
    Vblank(VblankStep<T>),
    /// Answer whether the screen supports adaptive sync.
    QueryAdaptiveSync,
    /// Answer that the surface is not active.
    AdaptiveSyncInactive,
    Stop,
}

impl<T> CommandEffect<T> {
    /// The answer that goes with what is done for a message.
    pub open spec fn owed(self) -> Option<Answer> {
        match self {
            CommandEffect::Suspended(_) => Some(Answer::Done),
            CommandEffect::AddNode(_) => Some(Answer::Done),
            CommandEffect::RemoveNode(_) => Some(Answer::Done),
            CommandEffect::QueryAdaptiveSync => Some(Answer::AdaptiveSyncSupport),
            CommandEffect::AdaptiveSyncInactive => Some(Answer::Inactive),
            _ => None,
        }
    }

    /// The answer to send once everything is done for a message, whatever came of it.
    pub fn owed_answer(&self) -> (answer: Option<Answer>)
        ensures
            answer == self.owed(),
    {
        match self {
            CommandEffect::Suspended(_) => Some(Answer::Done),
            CommandEffect::AddNode(_) => Some(Answer::Done),
            CommandEffect::RemoveNode(_) => Some(Answer::Done),
            CommandEffect::QueryAdaptiveSync => Some(Answer::AdaptiveSyncSupport),
            CommandEffect::AdaptiveSyncInactive => Some(Answer::Inactive),
            _ => None,
        }
    }
}

/// The state of a render thread.
#[derive(Debug, PartialEq, Eq, Structural)]
pub struct SurfaceThreadState<T> {
    pub target_node: u64,
    pub vrr_mode: AdaptiveSync,
    pub frame_flags: FrameFlags,
    /// Whether the thread has a compositor, which it has between a resumption and
    /// a suspension.
    pub has_compositor: bool,
    pub state: QueueState<T>,
    pub frame_callback_seq: usize,
    pub output: u64,
    pub mirroring: Option<u64>,
    pub screen_filter: ScreenFilter,
    pub hdr_enabled: bool,
    pub tuning: HdrTuning,
    /// Whether the CRTC does the HDR encoding.
    pub hdr_hardware_path_active: bool,
    pub last_sequence: Option<u32>,
}

/// `n + 1`, or zero past the largest number.
pub open spec fn wrapping_next(n: usize) -> usize {
    if n == usize::MAX {
        0
    } else {
        (n + 1) as usize
    }
}

fn next_wrapping(n: usize) -> (m: usize)
    ensures
        m == wrapping_next(n),
{
    if n == usize::MAX {
        0
    } else {
        n + 1
    }
}

impl<T: Copy> SurfaceThreadState<T> {
    /// Without a compositor nothing is waited for.
    pub open spec fn well_formed(self) -> bool {
        !self.has_compositor ==> self.state is Idle
    }

    /// A redraw is about to run: its timer fired.
    pub open spec fn redrawing(self) -> bool {
        self.has_compositor && self.state.render_timer() is Some
    }

    /// The number of the frame callbacks that are sent now. Where the output
    /// mirrors another one, that one sends them.
    pub open spec fn callbacks(self) -> Option<usize> {
        if self.mirroring is None {
            Some(self.frame_callback_seq)
        } else {
            None
        }
    }

    pub fn new(target_node: u64, output: u64, screen_filter: ScreenFilter) -> (thread: Self)
        ensures
            thread.well_formed(),
            thread == (SurfaceThreadState {
                target_node,
                vrr_mode: AdaptiveSync::Disabled,
                frame_flags: FrameFlags::scanout(),
                has_compositor: false,
                state: QueueState::<T>::Idle,
                frame_callback_seq: 0,
                output,
                mirroring: None,
                screen_filter,
                hdr_enabled: false,
                tuning: initial_tuning(),
                hdr_hardware_path_active: false,
                last_sequence: None,
            }),
    {
        SurfaceThreadState {
            target_node,
            vrr_mode: AdaptiveSync::Disabled,
            frame_flags: FrameFlags::allow_scanout(),
            has_compositor: false,
            state: QueueState::<T>::Idle,
            frame_callback_seq: 0,
            output,
            mirroring: None,
            screen_filter,
            hdr_enabled: false,
            tuning: HdrTuning {
                colorspace: HdrColorspace::Bt2020,
                ref_white: 250,
                gamut_strength: 100,
                saturation: 120,
                midtone_gamma: 70,
                test_pattern: false,
            },
            hdr_hardware_path_active: false,
            last_sequence: None,
        }
    }

    fn send_frame_callbacks(&self) -> (callbacks: Option<usize>)
        ensures
            callbacks == self.callbacks(),
    {
        if self.mirroring.is_none() {
            Some(self.frame_callback_seq)
        } else {
            None
        }
    }

    /// Gives up the compositor and whatever is waited for.
    pub fn suspend(&mut self) -> (cancelled: Cancelled<T>)
        ensures
            *final(self) == (SurfaceThreadState {
                has_compositor: false,
                state: QueueState::<T>::Idle,
                ..*old(self)
            }),
            final(self).well_formed(),
            cancelled.timers@ == old(self).state.timers(),
            cancelled.discard_frame == (old(self).state is WaitingForVBlank),
    {
        let cancelled: Cancelled<T> = cancel(self.state);
        self.has_compositor = false;
        self.state = QueueState::Idle;
        cancelled
    }

    /// The flags of a thread that is resumed.
    pub open spec fn resumed_flags(self, limits: ScanoutLimits) -> FrameFlags {
        if limits.no_direct_scanout {
            self.frame_flags.without(FrameFlags::scanout())
        } else if limits.no_overlay_scanout {
            self.frame_flags.without(FrameFlags::overlay())
        } else {
            self.frame_flags
        }
    }

    /// Takes on a compositor.
    pub fn resume(&mut self, limits: ScanoutLimits)
        ensures
            *final(self) == (SurfaceThreadState {
                has_compositor: true,
                frame_flags: old(self).resumed_flags(limits),
                ..*old(self)
            }),
            final(self).well_formed(),
    {
        if limits.no_direct_scanout {
            self.frame_flags = self.frame_flags.difference(FrameFlags::allow_scanout());
        } else if limits.no_overlay_scanout {
            self.frame_flags = self.frame_flags.difference(
                FrameFlags::allow_overlay_plane_scanout(),
            );
        }
        self.has_compositor = true;
    }

    /// Switches the screen off: what is waited for is given up, while the
    /// compositor stays. Without a compositor there is nothing to do.
    pub fn dpms_off(&mut self) -> (cancelled: Option<Cancelled<T>>)
        requires
            old(self).well_formed(),
        ensures
            *final(self) == (SurfaceThreadState { state: QueueState::<T>::Idle, ..*old(self) }),
            cancelled is Some == old(self).has_compositor,
            cancelled matches Some(cancelled) ==> {
                &&& cancelled.timers@ == old(self).state.timers()
                &&& cancelled.discard_frame == (old(self).state is WaitingForVBlank)
            },
    {
        if self.has_compositor {
            let cancelled: Cancelled<T> = cancel(self.state);
            self.state = QueueState::Idle;
            Some(cancelled)
        } else {
            None
        }
    }

    /// Asks for a redraw. Returns whether a timer for it is to be inserted; its
    /// token goes to `redraw_scheduled`.
    pub fn queue_redraw(&mut self, force: bool) -> (schedule: bool)
        requires
            old(self).well_formed(),
        ensures
            old(self).has_compositor ==> {
                &&& *final(self) == (SurfaceThreadState {
                    state: old(self).state.requested(force).0,
                    ..*old(self)
                })
                &&& schedule == old(self).state.requested(force).1
            },
            !old(self).has_compositor ==> *final(self) == *old(self) && !schedule,
            final(self).well_formed(),
            final(self).state.timers() == old(self).state.timers(),
    {
        if !self.has_compositor {
            return false;
        }
        match self.state {
            QueueState::WaitingForVBlank { .. } => {
                self.state = QueueState::WaitingForVBlank { redraw_needed: true };
                false
            },
            QueueState::Idle | QueueState::WaitingForEstimatedVBlank(_) => true,
            QueueState::Queued(_) | QueueState::WaitingForEstimatedVBlankAndQueued { .. } => force,
        }
    }

    /// Takes the token of the timer for a redraw. Returns the token of the timer
    /// that it replaces, which is to be removed.
    pub fn redraw_scheduled(&mut self, token: T) -> (replaced: Option<T>)
        requires
            old(self).has_compositor,
            !(old(self).state is WaitingForVBlank),
        ensures
            *final(self) == (SurfaceThreadState {
                state: old(self).state.scheduled(token),
                ..*old(self)
            }),
            final(self).redrawing(),
            final(self).state.render_timer() == Some(token),
            replaced == old(self).state.render_timer(),
            final(self).state.estimate_timer() == old(self).state.estimate_timer(),
    {
        match self.state {
            QueueState::WaitingForEstimatedVBlank(estimated_vblank) => {
                self.state = QueueState::WaitingForEstimatedVBlankAndQueued {
                    estimated_vblank,
                    queued_render: token,
                };
                None
            },
            QueueState::WaitingForEstimatedVBlankAndQueued { estimated_vblank, queued_render } => {
                self.state = QueueState::WaitingForEstimatedVBlankAndQueued {
                    estimated_vblank,
                    queued_render: token,
                };
                Some(queued_render)
            },
            QueueState::Queued(old_token) => {
                self.state = QueueState::Queued(token);
                Some(old_token)
            },
            _ => {
                self.state = QueueState::Queued(token);
                None
            },
        }
    }

    /// Meets the report of a vblank.
    pub fn begin_vblank(&mut self) -> (step: VblankStep<T>)
        requires
            old(self).well_formed(),
        ensures
            match old(self).state {
                QueueState::Idle => step is Ignored && *final(self) == *old(self),
                QueueState::WaitingForVBlank { .. } => step is Present && *final(self) == *old(
                    self,
                ),
                _ => {
                    &&& step matches VblankStep::Reset(timers) && timers@ == old(
                        self,
                    ).state.timers()
                    &&& *final(self) == (SurfaceThreadState {
                        state: QueueState::<T>::Idle,
                        ..*old(self)
                    })
                },
            },
            final(self).well_formed(),
    {
        if !self.has_compositor {
            return VblankStep::Ignored;
        }
        match self.state {
            QueueState::Idle => VblankStep::Ignored,
            QueueState::WaitingForVBlank { .. } => VblankStep::Present,
            _ => {
                let cancelled: Cancelled<T> = cancel(self.state);
                self.state = QueueState::Idle;
                VblankStep::Reset(cancelled.timers)
            },
        }
    }

    /// What clients are told about the frame that came to the screen. Where the
    /// frame was submitted without feedback, or the output mirrors another one,
    /// they are told nothing.
    pub fn presented(
        &mut self,
        has_feedback: bool,
        metadata: Option<VblankMetadata>,
        now: u64,
        rate: Option<u32>,
        vrr_enabled: bool,
    ) -> (presentation: Option<Presentation>)
        requires
            rate matches Some(rate) ==> rate > 0,
        ensures
            has_feedback && old(self).mirroring is None ==> {
                let told = presentation_of(metadata, now, rate, vrr_enabled);
                &&& presentation == Some(told)
                &&& *final(self) == (SurfaceThreadState {
                    last_sequence: Some(told.sequence as u32),
                    ..*old(self)
                })
            },
            !(has_feedback && old(self).mirroring is None) ==> presentation is None && *final(self)
                == *old(self),
    {
        if !has_feedback || self.mirroring.is_some() {
            return None;
        }
        let (time, sequence): (Option<u64>, u32) = match metadata {
            Some(data) => (data.time, data.sequence),
            None => (None, 0),
        };
        let refresh: Refresh = match rate {
            Some(rate) => {
                let nanos: u64 = refresh_interval(rate);
                if vrr_enabled {
                    Refresh::Variable(nanos)
                } else {
                    Refresh::Fixed(nanos)
                }
            },
            None => Refresh::Unknown,
        };
        self.last_sequence = Some(sequence);
        let (clock, hw_clock): (u64, bool) = match time {
            Some(time) => (time, true),
            None => (now, false),
        };
        Some(Presentation { time: clock, hw_clock, refresh, sequence: sequence as u64 })
    }

    /// Ends the wait for a vblank: a redraw follows where one was asked for
    /// meanwhile, or where animations go on.
    pub fn finish_vblank(&mut self, animations_going: bool) -> (effects: VblankEffects)
        requires
            old(self).well_formed(),
            old(self).state is WaitingForVBlank,
        ensures
            *final(self) == (SurfaceThreadState { state: QueueState::<T>::Idle, ..*old(self) }),
            final(self).has_compositor,
            effects.schedule == (old(self).state == (QueueState::<T>::WaitingForVBlank {
                redraw_needed: true,
            }) || animations_going),
            effects.callbacks == old(self).callbacks(),
    {
        let redraw_needed: bool = match self.state {
            QueueState::WaitingForVBlank { redraw_needed } => redraw_needed,
            _ => false,
        };
        self.state = QueueState::Idle;
        let schedule: bool = if redraw_needed || animations_going {
            self.queue_redraw(false)
        } else {
            false
        };
        VblankEffects { schedule, callbacks: self.send_frame_callbacks() }
    }

    /// Meets the firing of the timer of an estimated vblank. `force` is what the
    /// timer was inserted with.
    pub fn on_estimated_vblank(&mut self, force: bool, animations_going: bool) -> (effects:
        VblankEffects)
        requires
            old(self).well_formed(),
            old(self).state.estimate_timer() is Some,
        ensures
            final(self).state == old(self).state.estimate_fired(),
            final(self).state.render_timer() == old(self).state.render_timer(),
            final(self).well_formed(),
            match old(self).state {
                // The timer fired just in front of a redraw.
                QueueState::WaitingForEstimatedVBlankAndQueued { .. } => {
                    &&& *final(self) == (SurfaceThreadState {
                        state: final(self).state,
                        ..*old(self)
                    })
                    &&& !effects.schedule
                    &&& effects.callbacks is None
                },
                _ => {
                    &&& *final(self) == (SurfaceThreadState {
                        state: QueueState::<T>::Idle,
                        frame_callback_seq: wrapping_next(old(self).frame_callback_seq),
                        ..*old(self)
                    })
                    &&& effects.schedule == (force || animations_going)
                    &&& effects.callbacks == final(self).callbacks()
                },
            },
    {
        match self.state {
            QueueState::WaitingForEstimatedVBlankAndQueued { queued_render, .. } => {
                self.state = QueueState::Queued(queued_render);
                VblankEffects { schedule: false, callbacks: None }
            },
            _ => {
                self.state = QueueState::Idle;
                self.frame_callback_seq = next_wrapping(self.frame_callback_seq);
                let schedule: bool = if force || animations_going {
                    self.queue_redraw(false)
                } else {
                    false
                };
                VblankEffects { schedule, callbacks: self.send_frame_callbacks() }
            },
        }
    }

    /// Whether the shader of the postprocessing has anything to do.
    pub open spec fn needs_offscreen(self) -> bool {
        !self.screen_filter.noop() || self.hdr_enabled
    }

    /// Whether adaptive sync is on for a frame.
    pub open spec fn uses_vrr(self, inputs: FrameInputs) -> bool {
        self.vrr_mode == AdaptiveSync::Force || (self.vrr_mode == AdaptiveSync::Enabled
            && inputs.fullscreen is Some)
    }

    /// Whether a fullscreen window is fast enough to drive the refresh rate.
    pub open spec fn fullscreen_drives(inputs: FrameInputs) -> bool {
        inputs.fullscreen matches Some(Some(nanos)) && nanos <= SLOWEST_DRIVING_FRAME
    }

    pub open spec fn skips_cursor_only(self, inputs: FrameInputs) -> bool {
        self.uses_vrr(inputs) && Self::fullscreen_drives(inputs) && !inputs.past_min_render_time
    }

    /// The flags of a frame. Overlay planes are not tried for fullscreen windows
    /// or animations, and no plane takes elements directly while HDR is on: planes
    /// would be blended in different encodings.
    pub open spec fn flags_of_frame(self, inputs: FrameInputs) -> FrameFlags {
        let additional = FrameFlags {
            skip_cursor_only_updates: self.skips_cursor_only(inputs),
            ..FrameFlags::none()
        };
        let busy = if inputs.fullscreen is Some || inputs.animations_going {
            FrameFlags::overlay()
        } else {
            FrameFlags::none()
        };
        let hdr = if self.hdr_enabled {
            FrameFlags::scanout()
        } else {
            FrameFlags::none()
        };
        self.frame_flags.with(additional).without(busy.with(hdr))
    }

    /// The picture that is rendered first: that of the mirrored output, where it
    /// does not fit as it is, or of the output itself, where the shader has work.
    pub open spec fn offscreen_pass(self, inputs: FrameInputs) -> Option<OffscreenPass> {
        let format = if self.hdr_enabled && inputs.path_b {
            ABGR16161616F
        } else {
            inputs.swapchain_format
        };
        match self.mirroring {
            Some(source) => if inputs.mirror_differs || self.needs_offscreen() {
                Some(OffscreenPass { source, format })
            } else {
                None
            },
            None => if self.needs_offscreen() {
                Some(OffscreenPass { source: self.output, format })
            } else {
                None
            },
        }
    }

    /// How a frame is rendered.
    pub open spec fn planned_frame(self, inputs: FrameInputs) -> FramePlan {
        FramePlan {
            render_node: render_node(
                match inputs.primary_node {
                    Some(node) => node,
                    None => self.target_node,
                },
                self.target_node,
                inputs.workspace,
            ),
            vrr: self.uses_vrr(inputs),
            flags: self.flags_of_frame(inputs),
            skips_cursor_only: self.skips_cursor_only(inputs),
            hdr_context: if self.hdr_enabled {
                Some(self.tuning.ref_white)
            } else {
                None
            },
            offscreen: self.offscreen_pass(inputs),
            serves_captures: self.mirroring is None,
            capture_white: if self.hdr_enabled && inputs.path_b {
                self.tuning.ref_white
            } else {
                0
            },
        }
    }

    /// Plans a frame. Without a compositor there is none.
    pub fn redraw(&self, inputs: &FrameInputs) -> (plan: Option<FramePlan>)
        ensures
            plan == (if self.has_compositor {
                Some(self.planned_frame(*inputs))
            } else {
                None
            }),
            plan is Some <==> self.has_compositor,
            // A filter or HDR goes through the shader, mirrored or not, and nothing else does
            // but a mirror that differs.
            plan matches Some(plan) ==> (plan.offscreen is Some <==> self.screen_filter.inverted
                || self.screen_filter.color_filter is Some || self.hdr_enabled || (
            self.mirroring is Some && inputs.mirror_differs)),
    {
        if !self.has_compositor {
            return None;
        }
        let primary: u64 = match inputs.primary_node {
            Some(node) => node,
            None => self.target_node,
        };
        let node: u64 = render_node_for_output(primary, self.target_node, &inputs.workspace);
        let (has_active_fullscreen, drives): (bool, bool) = match inputs.fullscreen {
            Some(Some(nanos)) => (true, nanos <= SLOWEST_DRIVING_FRAME),
            Some(None) => (true, false),
            None => (false, false),
        };
        let mut remove: FrameFlags = FrameFlags::empty();
        if has_active_fullscreen || inputs.animations_going {
            remove = remove.union(FrameFlags::allow_overlay_plane_scanout());
        }
        if self.hdr_enabled {
            remove = remove.union(FrameFlags::allow_scanout());
            remove = remove.union(FrameFlags::allow_overlay_plane_scanout());
        }
        let needs_offscreen: bool = !self.screen_filter.is_noop() || self.hdr_enabled;
        let mut vrr: bool = match self.vrr_mode {
            AdaptiveSync::Force => true,
            _ => false,
        };
        if self.vrr_mode == AdaptiveSync::Enabled {
            vrr = has_active_fullscreen;
        }
        let skips_cursor_only: bool = vrr && drives && !inputs.past_min_render_time;
        let mut additional: FrameFlags = FrameFlags::empty();
        additional.skip_cursor_only_updates = skips_cursor_only;
        let linear: bool = self.hdr_enabled && inputs.path_b;
        let format: u32 = if linear {
            ABGR16161616F
        } else {
            inputs.swapchain_format
        };
        let source: Option<u64> = match self.mirroring {
            Some(mirrored) => if inputs.mirror_differs || needs_offscreen {
                Some(mirrored)
            } else {
                None
            },
            None => if needs_offscreen {
                Some(self.output)
            } else {
                None
            },
        };
        let offscreen: Option<OffscreenPass> = match source {
            Some(source) => Some(OffscreenPass { source, format }),
            None => None,
        };
        let plan: FramePlan = FramePlan {
            render_node: node,
            vrr,
            flags: self.frame_flags.union(additional).difference(remove),
            skips_cursor_only,
            hdr_context: if self.hdr_enabled {
                Some(self.tuning.ref_white)
            } else {
                None
            },
            offscreen,
            serves_captures: self.mirroring.is_none(),
            capture_white: if linear {
                self.tuning.ref_white
            } else {
                0
            },
        };
        assert(plan.flags == self.flags_of_frame(*inputs));
        Some(plan)
    }

    /// Whether the picture that is rendered first has to be set up anew. `existing` is
    /// the one of the last frame: whether it was set up for the same output
    /// configuration, and its format.
    pub fn recreates_offscreen(existing: Option<(bool, Option<u32>)>, wanted: u32) -> (anew: bool)
        ensures
            anew == match existing {
                None => true,
                Some((same_config, format)) => !same_config || (format is Some && format != Some(
                    wanted,
                )),
            },
    {
        match existing {
            None => true,
            Some((same_config, format)) => {
                let other_format: bool = match format {
                    Some(format) => format != wanted,
                    None => false,
                };
                !same_config || other_format
            },
        }
    }

    /// Whether the cursor is rendered by itself, because a capture leaves it out.
    pub fn separates_cursor(&self, has_cursor_mode_none: bool) -> (separates: bool)
        ensures
            separates == (has_cursor_mode_none && self.mirroring is None),
    {
        has_cursor_mode_none && self.mirroring.is_none()
    }

    /// Whether feedback about the presentation is taken along with a frame.
    pub fn takes_feedback(&self, frame_is_empty: bool) -> (takes: bool)
        ensures
            takes == (!frame_is_empty && self.mirroring is None),
    {
        !frame_is_empty && self.mirroring.is_none()
    }

    /// Meets the outcome of handing a frame to the device. Whatever it was, frame
    /// callbacks are sent, so that clients go on; and something is waited for
    /// afterwards, so that the next redraw comes.
    pub fn frame_queued(&mut self, outcome: QueueOutcome, skipped_cursor_only: bool) -> (effects:
        FrameEffects<T>)
        requires
            old(self).redrawing(),
        ensures
            ({
                let seq = if old(self).mirroring is None {
                    wrapping_next(old(self).frame_callback_seq)
                } else {
                    old(self).frame_callback_seq
                };
                let state = match outcome {
                    QueueOutcome::Queued => QueueState::WaitingForVBlank { redraw_needed: false },
                    QueueOutcome::EmptyFrame => old(self).state.redraw_was_empty(),
                };
                *final(self) == SurfaceThreadState { state, frame_callback_seq: seq, ..*old(self) }
            }),
            effects.callbacks == final(self).callbacks(),
            effects.sends_states == (old(self).mirroring is None),
            match outcome {
                QueueOutcome::Queued => {
                    &&& effects.remove == old(self).state.estimate_timer()
                    &&& effects.estimate is None
                },
                QueueOutcome::EmptyFrame => {
                    &&& effects.remove is None
                    &&& effects.estimate == (if old(self).state.estimate_timer() is None {
                        Some(skipped_cursor_only)
                    } else {
                        None
                    })
                },
            },
            effects.estimate is Some || final(self).state is WaitingForVBlank
                || final(self).state is WaitingForEstimatedVBlank,
    {
        let estimate_timer: Option<T> = match self.state {
            QueueState::WaitingForEstimatedVBlank(token) => Some(token),
            QueueState::WaitingForEstimatedVBlankAndQueued { estimated_vblank, .. } => Some(
                estimated_vblank,
            ),
            _ => None,
        };
        let mirrors: bool = self.mirroring.is_some();
        if !mirrors {
            self.frame_callback_seq = next_wrapping(self.frame_callback_seq);
        }
        let callbacks: Option<usize> = self.send_frame_callbacks();
        match outcome {
            QueueOutcome::Queued => {
                self.state = QueueState::WaitingForVBlank { redraw_needed: false };
                FrameEffects {
                    remove: estimate_timer,
                    callbacks,
                    sends_states: !mirrors,
                    estimate: None,
                }
            },
            QueueOutcome::EmptyFrame => {
                let estimate: Option<bool> = match estimate_timer {
                    Some(token) => {
                        self.state = QueueState::WaitingForEstimatedVBlank(token);
                        None
                    },
                    None => {
                        self.state = QueueState::Idle;
                        Some(skipped_cursor_only)
                    },
                };
                FrameEffects { remove: None, callbacks, sends_states: !mirrors, estimate }
            },
        }
    }

    /// Meets the failure of a redraw, which is asked for again in any case.
    pub fn redraw_failed(&mut self, failure: RedrawFailure) -> (effects: FailureEffects)
        requires
            old(self).well_formed(),
        ensures
            final(self).well_formed(),
            effects.reset_buffers == (failure is Rendering),
            effects.fail_captures == (failure is Submission),
            old(self).has_compositor ==> {
                &&& *final(self) == (SurfaceThreadState {
                    state: old(self).state.requested(true).0,
                    ..*old(self)
                })
                &&& effects.schedule == !(old(self).state is WaitingForVBlank)
            },
            !old(self).has_compositor ==> *final(self) == *old(self) && !effects.schedule,
            final(self).state.timers() == old(self).state.timers(),
    {
        let (reset_buffers, fail_captures): (bool, bool) = match failure {
            RedrawFailure::Aside => (false, false),
            RedrawFailure::Rendering => (true, false),
            RedrawFailure::Submission => (false, true),
        };
        let schedule: bool = self.queue_redraw(true);
        FailureEffects { reset_buffers, fail_captures, schedule }
    }

    /// Takes the token of the timer for the estimated vblank.
    pub fn estimate_scheduled(&mut self, token: T)
        requires
            old(self).has_compositor,
            old(self).state is Idle,
        ensures
            *final(self) == (SurfaceThreadState {
                state: QueueState::<T>::WaitingForEstimatedVBlank(token),
                ..*old(self)
            }),
            final(self).well_formed(),
    {
        self.state = QueueState::WaitingForEstimatedVBlank(token);
    }

    /// The thread with the settings that a message brings.
    pub open spec fn after_setting(
        self,
        command: ThreadCommand,
        limits: ScanoutLimits,
    ) -> SurfaceThreadState<T> {
        match command {
            ThreadCommand::UpdateMirroring(mirroring) => SurfaceThreadState { mirroring, ..self },
            ThreadCommand::UpdateScreenFilter(screen_filter) => SurfaceThreadState {
                screen_filter,
                ..self
            },
            ThreadCommand::UpdateHdrEnabled(hdr_enabled) => SurfaceThreadState {
                hdr_enabled,
                ..self
            },
            ThreadCommand::UpdateHdrHardwarePath(active) => SurfaceThreadState {
                hdr_hardware_path_active: active,
                ..self
            },
            ThreadCommand::UpdateHdrTuning(tuning) => SurfaceThreadState { tuning, ..self },
            ThreadCommand::UseAdaptiveSync(vrr_mode) => SurfaceThreadState { vrr_mode, ..self },
            ThreadCommand::AllowFrameFlags(allow, flags) => {
                let direct = if limits.no_direct_scanout {
                    flags.without(FrameFlags::scanout())
                } else {
                    flags
                };
                let permitted = if limits.no_overlay_scanout {
                    direct.without(FrameFlags::overlay())
                } else {
                    direct
                };
                SurfaceThreadState {
                    frame_flags: if allow {
                        self.frame_flags.with(permitted)
                    } else {
                        self.frame_flags.without(permitted)
                    },
                    ..self
                }
            },
            _ => self,
        }
    }

    /// A message that asks for a redraw. Before the startup is done, requests for
    /// a render are dropped.
    pub open spec fn asks_for_redraw(command: ThreadCommand, startup_done: bool) -> bool {
        match command {
            ThreadCommand::ScheduleRender => startup_done,
            ThreadCommand::UpdateHdrHardwarePath(_) => true,
            ThreadCommand::UpdateHdrTuning(_) => true,
            _ => false,
        }
    }

    /// Allows or forbids flags, as far as the environment permits.
    fn switch_flags(&mut self, allow: bool, flags: FrameFlags, limits: ScanoutLimits)
        ensures
            *final(self) == old(self).after_setting(
                ThreadCommand::AllowFrameFlags(allow, flags),
                limits,
            ),
    {
        let mut permitted: FrameFlags = flags;
        if limits.no_direct_scanout {
            permitted = permitted.difference(FrameFlags::allow_scanout());
        }
        if limits.no_overlay_scanout {
            permitted = permitted.difference(FrameFlags::allow_overlay_plane_scanout());
        }
        self.frame_flags = if allow {
            self.frame_flags.union(permitted)
        } else {
            self.frame_flags.difference(permitted)
        };
    }

    /// Takes over the setting that a message brings.
    fn take_setting(&mut self, command: ThreadCommand, limits: ScanoutLimits)
        ensures
            *final(self) == old(self).after_setting(command, limits),
            final(self).state == old(self).state,
            final(self).has_compositor == old(self).has_compositor,
    {
        match command {
            ThreadCommand::UpdateMirroring(mirroring) => {
                self.mirroring = mirroring;
            },
            ThreadCommand::UpdateScreenFilter(screen_filter) => {
                self.screen_filter = screen_filter;
            },
            ThreadCommand::UpdateHdrEnabled(enabled) => {
                self.hdr_enabled = enabled;
            },
            ThreadCommand::UpdateHdrHardwarePath(active) => {
                self.hdr_hardware_path_active = active;
            },
            ThreadCommand::UpdateHdrTuning(tuning) => {
                self.tuning = tuning;
            },
            ThreadCommand::UseAdaptiveSync(vrr_mode) => {
                self.vrr_mode = vrr_mode;
            },
            ThreadCommand::AllowFrameFlags(allow, flags) => {
                self.switch_flags(allow, flags, limits);
            },
            _ => {},
        }
    }

    /// Asks for a redraw on behalf of a message.
    fn request_redraw(&mut self) -> (effect: CommandEffect<T>)
        requires
            old(self).well_formed(),
        ensures
            final(self).well_formed(),
            effect.owed() is None,
            if old(self).has_compositor {
                &&& *final(self) == (SurfaceThreadState {
                    state: old(self).state.requested(false).0,
                    ..*old(self)
                })
                &&& if old(self).state.requested(false).1 {
                    effect is Schedule
                } else {
                    effect is Nothing
                }
            } else {
                *final(self) == *old(self) && effect is Nothing
            },
    {
        if self.queue_redraw(false) {
            CommandEffect::Schedule
        } else {
            CommandEffect::Nothing
        }
    }

    /// Meets a message.
    pub fn on_command(
        &mut self,
        command: ThreadCommand,
        startup_done: bool,
        limits: ScanoutLimits,
    ) -> (effect: CommandEffect<T>)
        requires
            old(self).well_formed(),
        ensures
            final(self).well_formed(),
            effect.owed() == command.answer(old(self).has_compositor),
            command is ScheduleRender && !startup_done ==> *final(self) == *old(self)
                && effect is Nothing,
            match command {
                ThreadCommand::Suspend => {
                    &&& *final(self) == (SurfaceThreadState {
                        has_compositor: false,
                        state: QueueState::<T>::Idle,
                        ..*old(self)
                    })
                    &&& effect matches CommandEffect::Suspended(cancelled)
                    &&& cancelled.timers@ == old(self).state.timers()
                    &&& cancelled.discard_frame == (old(self).state is WaitingForVBlank)
                },
                ThreadCommand::Resume => {
                    &&& *final(self) == (SurfaceThreadState {
                        has_compositor: true,
                        frame_flags: old(self).resumed_flags(limits),
                        ..*old(self)
                    })
                    &&& effect is Resumed
                },
                ThreadCommand::NodeAdded(node) => *final(self) == *old(self) && effect
                    == CommandEffect::<T>::AddNode(node),
                ThreadCommand::NodeRemoved(node) => *final(self) == *old(self) && effect
                    == CommandEffect::<T>::RemoveNode(node),
                ThreadCommand::VBlank(_) => {
                    &&& effect matches CommandEffect::Vblank(step)
                    &&& match old(self).state {
                        QueueState::Idle => step is Ignored && *final(self) == *old(self),
                        QueueState::WaitingForVBlank { .. } => step is Present && *final(self)
                            == *old(self),
                        _ => {
                            &&& step matches VblankStep::Reset(timers) && timers@ == old(
                                self,
                            ).state.timers()
                            &&& *final(self) == (SurfaceThreadState {
                                state: QueueState::<T>::Idle,
                                ..*old(self)
                            })
                        },
                    }
                },
                ThreadCommand::DpmsOff => {
                    &&& *final(self) == (SurfaceThreadState {
                        state: QueueState::<T>::Idle,
                        ..*old(self)
                    })
                    &&& if old(self).has_compositor {
                        &&& effect matches CommandEffect::SwitchedOff(cancelled)
                        &&& cancelled.timers@ == old(self).state.timers()
                        &&& cancelled.discard_frame == (old(self).state is WaitingForVBlank)
                    } else {
                        effect is Nothing
                    }
                },
                ThreadCommand::AdaptiveSyncAvailable => {
                    &&& *final(self) == *old(self)
                    &&& if old(self).has_compositor {
                        effect is QueryAdaptiveSync
                    } else {
                        effect is AdaptiveSyncInactive
                    }
                },
                ThreadCommand::End => *final(self) == *old(self) && effect is Stop,
                ThreadCommand::UpdateMirroring(_) | ThreadCommand::UpdateScreenFilter(_) => {
                    *final(self) == old(self).after_setting(command, limits)
                        && effect is ClearTextures
                },
                _ => {
                    let set = old(self).after_setting(command, limits);
                    if Self::asks_for_redraw(command, startup_done) && set.has_compositor {
                        &&& *final(self) == (SurfaceThreadState {
                            state: set.state.requested(false).0,
                            ..set
                        })
                        &&& if set.state.requested(false).1 {
                            effect is Schedule
                        } else {
                            effect is Nothing
                        }
                    } else {
                        *final(self) == set && effect is Nothing
                    }
                },
            },
            // A setting stands at what the last message brought, whatever it was before.
            command matches ThreadCommand::UpdateHdrEnabled(enabled) ==> final(self).hdr_enabled
                == enabled,
            command matches ThreadCommand::UpdateHdrHardwarePath(active)
                ==> final(self).hdr_hardware_path_active == active,
            command matches ThreadCommand::UpdateHdrTuning(tuning) ==> final(self).tuning
                == tuning,
            command matches ThreadCommand::UseAdaptiveSync(vrr) ==> final(self).vrr_mode == vrr,
            command matches ThreadCommand::UpdateMirroring(mirroring) ==> final(self).mirroring
                == mirroring,
            command matches ThreadCommand::UpdateScreenFilter(filter)
                ==> final(self).screen_filter == filter,
    {
        match command {
            ThreadCommand::Suspend => CommandEffect::Suspended(self.suspend()),
            ThreadCommand::Resume => {
                self.resume(limits);
                CommandEffect::Resumed
            },
            ThreadCommand::NodeAdded(node) => CommandEffect::AddNode(node),
            ThreadCommand::NodeRemoved(node) => CommandEffect::RemoveNode(node),
            ThreadCommand::VBlank(_) => CommandEffect::Vblank(self.begin_vblank()),
            ThreadCommand::ScheduleRender => {
                if startup_done {
                    self.request_redraw()
                } else {
                    CommandEffect::Nothing
                }
            },
            ThreadCommand::UpdateMirroring(_) | ThreadCommand::UpdateScreenFilter(_) => {
                self.take_setting(command, limits);
                CommandEffect::ClearTextures
            },
            ThreadCommand::UpdateHdrHardwarePath(_) | ThreadCommand::UpdateHdrTuning(_) => {
                self.take_setting(command, limits);
                self.request_redraw()
            },
            ThreadCommand::UpdateHdrEnabled(_) | ThreadCommand::UseAdaptiveSync(_)
            | ThreadCommand::AllowFrameFlags(_, _) => {
                self.take_setting(command, limits);
                CommandEffect::Nothing
            },
            ThreadCommand::AdaptiveSyncAvailable => if self.has_compositor {
                CommandEffect::QueryAdaptiveSync
            } else {
                CommandEffect::AdaptiveSyncInactive
            },
            ThreadCommand::DpmsOff => match self.dpms_off() {
                Some(cancelled) => CommandEffect::SwitchedOff(cancelled),
                None => CommandEffect::Nothing,
            },
            ThreadCommand::End => CommandEffect::Stop,
        }
    }
}

// ---------------------------------------------------------------------------
// Laws of the state machine
// ---------------------------------------------------------------------------

/// A message is answered once if its sender waits for an answer, and not otherwise: what
/// is done for a message owes exactly the answer that the message calls for.
pub proof fn lemma_waiting_senders_are_answered<T>(
    command: ThreadCommand,
    active: bool,
    effect: CommandEffect<T>,
)
    requires
        effect.owed() == command.answer(active),
    ensures
        effect.owed() is Some <==> command.awaits_answer(),
        command.awaits_answer() <==> command is Suspend || command is NodeAdded
            || command is NodeRemoved || command is AdaptiveSyncAvailable,
        command is Suspend || command is NodeAdded || command is NodeRemoved ==> effect.owed()
            == Some(Answer::Done),
        command is AdaptiveSyncAvailable ==> effect.owed() == Some(
            if active {
                Answer::AdaptiveSyncSupport
            } else {
                Answer::Inactive
            },
        ),
{
}

/// The timers that a state holds are that of the estimated vblank and that of the
/// queued redraw, and no others.
pub proof fn lemma_timers_are_the_two<T>(state: QueueState<T>)
    ensures
        state.timers() == (match state.estimate_timer() {
            Some(token) => seq![token],
            None => Seq::<T>::empty(),
        } + match state.render_timer() {
            Some(token) => seq![token],
            None => Seq::<T>::empty(),
        }),
{
    assert(state.timers() =~= (match state.estimate_timer() {
        Some(token) => seq![token],
        None => Seq::<T>::empty(),
    } + match state.render_timer() {
        Some(token) => seq![token],
        None => Seq::<T>::empty(),
    }));
}

/// No step loses a timer or keeps one that fired: a request keeps both timers,
/// scheduling replaces that of the redraw, an estimated vblank uses up its own, and
/// so does a redraw.
pub proof fn lemma_timers_are_kept_in_step<T>(state: QueueState<T>, token: T, force: bool)
    ensures
        state.requested(force).0.timers() == state.timers(),
        !(state is WaitingForVBlank) ==> {
            &&& state.scheduled(token).render_timer() == Some(token)
            &&& state.scheduled(token).estimate_timer() == state.estimate_timer()
        },
        state.estimate_fired().estimate_timer() is None,
        state.estimate_timer() is Some ==> state.estimate_fired().render_timer()
            == state.render_timer(),
        state.redraw_was_empty().render_timer() is None,
        state.redraw_was_empty().estimate_timer() == state.estimate_timer(),
{
}

/// A redraw that is scheduled is not scheduled again by further requests.
pub proof fn lemma_requests_are_merged<T>(state: QueueState<T>, token: T)
    ensures
        state.scheduled(token).requested(false) == (state.scheduled(token), false),
{
}

/// A request while a frame is on its way to the screen is not lost: it is noted
/// until the vblank, however often it is repeated.
pub proof fn lemma_request_outlives_the_wait<T>(state: QueueState<T>, first: bool, again: bool)
    requires
        state is WaitingForVBlank,
    ensures
        state.requested(first).0 == (QueueState::<T>::WaitingForVBlank { redraw_needed: true }),
        state.requested(first).0.requested(again).0 == state.requested(first).0,
{
}

/// A redraw that failed is never forgotten: another one is scheduled in its place, or
/// noted until the vblank.
pub proof fn lemma_failed_redraws_are_repeated<T>(state: QueueState<T>, token: T)
    ensures
        ({
            let (after, schedule) = state.requested(true);
            if schedule {
                after.scheduled(token).render_timer() == Some(token)
            } else {
                after == (QueueState::<T>::WaitingForVBlank { redraw_needed: true })
            }
        }),
{
}

/// While HDR is on, every frame goes through the shader: no element is scanned
/// out directly.
pub proof fn lemma_hdr_frames_are_composited<T: Copy>(
    thread: SurfaceThreadState<T>,
    inputs: FrameInputs,
)
    requires
        thread.hdr_enabled,
    ensures
        ({
            let plan = thread.planned_frame(inputs);
            &&& plan.offscreen is Some
            &&& !plan.flags.primary_scanout
            &&& !plan.flags.overlay_scanout
            &&& !plan.flags.cursor_scanout
            &&& plan.hdr_context == Some(thread.tuning.ref_white)
        }),
{
}

/// Without HDR, a filter or mirroring, frames are rendered straight to the screen,
/// in no HDR context.
pub proof fn lemma_plain_frames_are_direct<T: Copy>(
    thread: SurfaceThreadState<T>,
    inputs: FrameInputs,
)
    requires
        !thread.hdr_enabled,
        thread.screen_filter.noop(),
        thread.mirroring is None,
    ensures
        thread.planned_frame(inputs).offscreen is None,
        thread.planned_frame(inputs).hdr_context is None,
        thread.planned_frame(inputs).capture_white == 0,
{
}

/// A flag that the environment forbids is never gained from a message.
pub proof fn lemma_forbidden_flags_stay_off<T: Copy>(
    thread: SurfaceThreadState<T>,
    allow: bool,
    flags: FrameFlags,
    limits: ScanoutLimits,
)
    ensures
        ({
            let after = thread.after_setting(
                ThreadCommand::AllowFrameFlags(allow, flags),
                limits,
            ).frame_flags;
            let before = thread.frame_flags;
            &&& limits.no_direct_scanout && !before.primary_scanout ==> !after.primary_scanout
            &&& limits.no_direct_scanout && !before.cursor_scanout ==> !after.cursor_scanout
            &&& (limits.no_direct_scanout || limits.no_overlay_scanout) && !before.overlay_scanout
                ==> !after.overlay_scanout
        }),
{
}

// ---------------------------------------------------------------------------
// Laws of settings, flags and frames
// ---------------------------------------------------------------------------

/// Flags are a set: adding is commutative and idempotent, what was added or taken away
/// is there or gone, and the rest stays.
pub proof fn lemma_flags_are_a_set(a: FrameFlags, b: FrameFlags)
    ensures
        a.with(b) == b.with(a),
        a.with(a) == a,
        a.with(FrameFlags::none()) == a,
        a.without(FrameFlags::none()) == a,
        a.without(a) == FrameFlags::none(),
        a.with(b).without(b) == a.without(b),
        a.without(b).with(b) == a.with(b),
        a.with(b).without(a).with(a) == a.with(b),
        FrameFlags::scanout().with(FrameFlags::overlay()) == FrameFlags::scanout(),
        FrameFlags::overlay().overlay_scanout && FrameFlags::overlay() != FrameFlags::scanout(),
        FrameFlags::overlay().without(FrameFlags::scanout()) == FrameFlags::none(),
        !FrameFlags::scanout().primary_scanout_any,
        !FrameFlags::scanout().skip_cursor_only_updates,
        FrameFlags::scanout().primary_scanout && FrameFlags::scanout().cursor_scanout,
        !FrameFlags::overlay().primary_scanout && !FrameFlags::overlay().cursor_scanout,
{
}

/// After a settings message the setting is at the message's value, whatever it was
/// before, and every other part of the thread is as it was.
pub proof fn lemma_settings_are_taken_over<T: Copy>(
    thread: SurfaceThreadState<T>,
    command: ThreadCommand,
    limits: ScanoutLimits,
)
    ensures
        ({
            let after = thread.after_setting(command, limits);
            &&& after.mirroring == (match command {
                ThreadCommand::UpdateMirroring(mirroring) => mirroring,
                _ => thread.mirroring,
            })
            &&& after.screen_filter == (match command {
                ThreadCommand::UpdateScreenFilter(filter) => filter,
                _ => thread.screen_filter,
            })
            &&& after.hdr_enabled == (match command {
                ThreadCommand::UpdateHdrEnabled(enabled) => enabled,
                _ => thread.hdr_enabled,
            })
            &&& after.hdr_hardware_path_active == (match command {
                ThreadCommand::UpdateHdrHardwarePath(active) => active,
                _ => thread.hdr_hardware_path_active,
            })
            &&& after.tuning == (match command {
                ThreadCommand::UpdateHdrTuning(tuning) => tuning,
                _ => thread.tuning,
            })
            &&& after.vrr_mode == (match command {
                ThreadCommand::UseAdaptiveSync(mode) => mode,
                _ => thread.vrr_mode,
            })
            &&& !(command is AllowFrameFlags) ==> after.frame_flags == thread.frame_flags
            &&& after.target_node == thread.target_node
            &&& after.has_compositor == thread.has_compositor
            &&& after.state == thread.state
            &&& after.frame_callback_seq == thread.frame_callback_seq
            &&& after.output == thread.output
            &&& after.last_sequence == thread.last_sequence
        }),
{
}

/// The last message wins: of two messages for the same setting the first one leaves no
/// trace, and messages for different settings can come in either order.
pub proof fn lemma_last_setting_wins<T: Copy>(
    thread: SurfaceThreadState<T>,
    first: ThreadCommand,
    second: ThreadCommand,
    limits: ScanoutLimits,
)
    requires
        !(first is AllowFrameFlags),
        !(second is AllowFrameFlags),
    ensures
        ({
            let same = (first is UpdateMirroring && second is UpdateMirroring) || (
            first is UpdateScreenFilter && second is UpdateScreenFilter) || (
            first is UpdateHdrEnabled && second is UpdateHdrEnabled) || (
            first is UpdateHdrHardwarePath && second is UpdateHdrHardwarePath) || (
            first is UpdateHdrTuning && second is UpdateHdrTuning) || (first is UseAdaptiveSync
                && second is UseAdaptiveSync);
            if same {
                thread.after_setting(first, limits).after_setting(second, limits)
                    == thread.after_setting(second, limits)
            } else {
                thread.after_setting(first, limits).after_setting(second, limits)
                    == thread.after_setting(second, limits).after_setting(first, limits)
            }
        }),
{
    let (a, b) = (thread.after_setting(first, limits), thread.after_setting(second, limits));
    lemma_settings_are_taken_over(thread, first, limits);
    lemma_settings_are_taken_over(thread, second, limits);
    lemma_settings_are_taken_over(a, second, limits);
    lemma_settings_are_taken_over(b, first, limits);
}

/// A message about flags turns on or off the flags that it names, as far as the
/// environment permits, and leaves the others.
pub proof fn lemma_flags_are_switched<T: Copy>(
    thread: SurfaceThreadState<T>,
    allow: bool,
    flags: FrameFlags,
    limits: ScanoutLimits,
)
    ensures
        ({
            let command = ThreadCommand::AllowFrameFlags(allow, flags);
            let (before, after) = (
                thread.frame_flags,
                thread.after_setting(command, limits).frame_flags,
            );
            let direct = limits.no_direct_scanout;
            let overlay = limits.no_direct_scanout || limits.no_overlay_scanout;
            &&& after.primary_scanout == (if flags.primary_scanout && !direct {
                allow
            } else {
                before.primary_scanout
            })
            &&& after.primary_scanout_any == (if flags.primary_scanout_any {
                allow
            } else {
                before.primary_scanout_any
            })
            &&& after.overlay_scanout == (if flags.overlay_scanout && !overlay {
                allow
            } else {
                before.overlay_scanout
            })
            &&& after.cursor_scanout == (if flags.cursor_scanout && !direct {
                allow
            } else {
                before.cursor_scanout
            })
            &&& after.skip_cursor_only_updates == (if flags.skip_cursor_only_updates {
                allow
            } else {
                before.skip_cursor_only_updates
            })
        }),
{
}

/// A thread that is resumed loses the planes that the environment forbids, and no flag
/// besides.
pub proof fn lemma_resumed_threads_keep_to_limits<T: Copy>(
    thread: SurfaceThreadState<T>,
    limits: ScanoutLimits,
)
    ensures
        ({
            let (before, after) = (thread.frame_flags, thread.resumed_flags(limits));
            &&& after.primary_scanout == (before.primary_scanout && !limits.no_direct_scanout)
            &&& after.cursor_scanout == (before.cursor_scanout && !limits.no_direct_scanout)
            &&& after.overlay_scanout == (before.overlay_scanout && !limits.no_direct_scanout
                && !limits.no_overlay_scanout)
            &&& after.primary_scanout_any == before.primary_scanout_any
            &&& after.skip_cursor_only_updates == before.skip_cursor_only_updates
        }),
{
}

/// Which messages ask for a redraw: live tuning, a change of the hardware path, and,
/// once the startup is done, a request for a render.
pub proof fn lemma_messages_that_ask_for_a_redraw<T: Copy>(
    command: ThreadCommand,
    startup_done: bool,
)
    ensures
        SurfaceThreadState::<T>::asks_for_redraw(command, startup_done) <==> {
            ||| command is UpdateHdrTuning
            ||| command is UpdateHdrHardwarePath
            ||| command is ScheduleRender && startup_done
        },
{
}

/// A frame goes through the shader exactly where there is something for it to do: the
/// filter inverts or names a color filter, HDR is on, or what is mirrored does not fit.
/// The picture is that of the mirrored output, or of the output itself.
pub proof fn lemma_filtered_frames_go_through_the_shader<T: Copy>(
    thread: SurfaceThreadState<T>,
    inputs: FrameInputs,
)
    ensures
        ({
            let offscreen = thread.planned_frame(inputs).offscreen;
            &&& thread.screen_filter.inverted ==> offscreen is Some
            &&& thread.screen_filter.color_filter is Some ==> offscreen is Some
            &&& thread.hdr_enabled ==> offscreen is Some
            &&& thread.mirroring is Some && inputs.mirror_differs ==> offscreen is Some
            &&& offscreen is Some ==> {
                ||| thread.screen_filter.inverted
                ||| thread.screen_filter.color_filter is Some
                ||| thread.hdr_enabled
                ||| thread.mirroring is Some && inputs.mirror_differs
            }
            &&& offscreen matches Some(pass) ==> {
                &&& thread.mirroring matches Some(source) ==> pass.source == source
                &&& thread.mirroring is None ==> pass.source == thread.output
                &&& thread.hdr_enabled && inputs.path_b ==> pass.format == ABGR16161616F
                &&& !thread.hdr_enabled || !inputs.path_b ==> pass.format
                    == inputs.swapchain_format
            }
        }),
{
}

/// The planes of a frame: HDR takes away all planes, a fullscreen window or an animation
/// the overlay planes, and nothing else takes away or adds any.
pub proof fn lemma_planes_of_a_frame<T: Copy>(thread: SurfaceThreadState<T>, inputs: FrameInputs)
    ensures
        ({
            let (allowed, flags) = (thread.frame_flags, thread.planned_frame(inputs).flags);
            let busy = inputs.fullscreen is Some || inputs.animations_going;
            &&& flags.primary_scanout == (allowed.primary_scanout && !thread.hdr_enabled)
            &&& flags.cursor_scanout == (allowed.cursor_scanout && !thread.hdr_enabled)
            &&& flags.overlay_scanout == (allowed.overlay_scanout && !thread.hdr_enabled && !busy)
            &&& flags.primary_scanout_any == allowed.primary_scanout_any
            &&& flags.skip_cursor_only_updates == (allowed.skip_cursor_only_updates
                || thread.planned_frame(inputs).skips_cursor_only)
        }),
{
}

/// Adaptive sync: forced it is always on, disabled never, and enabled exactly while a
/// window is fullscreen. Cursor-only frames are skipped only then, for a window that
/// comes at least thirty times a second, and never past the time to render.
pub proof fn lemma_adaptive_sync_modes<T: Copy>(thread: SurfaceThreadState<T>, inputs: FrameInputs)
    ensures
        ({
            let plan = thread.planned_frame(inputs);
            &&& thread.vrr_mode == AdaptiveSync::Force ==> plan.vrr
            &&& thread.vrr_mode == AdaptiveSync::Disabled ==> !plan.vrr
            &&& thread.vrr_mode == AdaptiveSync::Enabled ==> plan.vrr == (inputs.fullscreen is Some)
            &&& plan.skips_cursor_only <==> {
                &&& plan.vrr
                &&& !inputs.past_min_render_time
                &&& inputs.fullscreen matches Some(Some(nanos)) && nanos <= 33333333
            }
        }),
{
}

/// What a frame says of HDR, captures and mirroring.
pub proof fn lemma_context_of_a_frame<T: Copy>(thread: SurfaceThreadState<T>, inputs: FrameInputs)
    ensures
        ({
            let plan = thread.planned_frame(inputs);
            &&& thread.hdr_enabled ==> plan.hdr_context == Some(thread.tuning.ref_white)
            &&& !thread.hdr_enabled ==> plan.hdr_context is None
            &&& thread.hdr_enabled && inputs.path_b ==> plan.capture_white
                == thread.tuning.ref_white
            &&& !thread.hdr_enabled || !inputs.path_b ==> plan.capture_white == 0
            &&& plan.serves_captures <==> thread.mirroring is None
            &&& inputs.primary_node is None ==> plan.render_node == thread.target_node
            &&& inputs.primary_node matches Some(primary) ==> plan.render_node == render_node(
                primary,
                thread.target_node,
                inputs.workspace,
            )
        }),
{
}

/// A frame is rendered on one of the two nodes. It leaves the target only for windows
/// whose buffers all come from elsewhere: a window on the target brings it back, and so
/// does it if no window says where its buffer comes from.
pub proof fn lemma_node_of_a_frame(primary: u64, target: u64, workspace: WorkspaceNodes)
    ensures
        ({
            let node = render_node(primary, target, workspace);
            &&& node == primary || node == target
            &&& workspace is NoWorkspace ==> node == target
            &&& workspace matches WorkspaceNodes::Windows(nodes) ==> {
                &&& (exists|i: int| 0 <= i < nodes@.len() && #[trigger] nodes@[i] == Some(target))
                    ==> node == target
                &&& (forall|i: int| 0 <= i < nodes@.len() ==> #[trigger] nodes@[i] is None) ==> node
                    == target
                &&& (exists|i: int|
                    0 <= i < nodes@.len() && (#[trigger] nodes@[i]) is Some && !nodes@.contains(
                        Some(target),
                    )) ==> node == primary
            }
        }),
{
    if let WorkspaceNodes::Windows(nodes) = workspace {
        if exists|i: int| 0 <= i < nodes@.len() && #[trigger] nodes@[i] == Some(target) {
            assert(nodes@.contains(Some(target)));
        }
    }
}

/// No request for a redraw is lost. A timer is inserted, unless a redraw is queued
/// already or a frame is on its way; in the latter case the request is noted. A forced
/// request is queued again.
pub proof fn lemma_requests_are_never_lost<T>(state: QueueState<T>, force: bool)
    ensures
        ({
            let (after, schedule) = state.requested(force);
            &&& schedule <==> !(state is WaitingForVBlank) && (force || state.render_timer() is None)
            &&& state is WaitingForVBlank ==> after == (QueueState::<T>::WaitingForVBlank {
                redraw_needed: true,
            })
            &&& !(state is WaitingForVBlank) ==> after == state
        }),
{
}

/// What a timer that fired leaves: an estimated vblank leaves the queued redraw, if there
/// is one, and an empty redraw leaves the estimated vblank; with nothing left the thread
/// is idle.
pub proof fn lemma_fired_timers_are_used_up<T>(state: QueueState<T>)
    ensures
        state.render_timer() is None || state is Queued ==> state.estimate_fired()
            is Idle,
        state matches QueueState::WaitingForEstimatedVBlankAndQueued {
            estimated_vblank,
            queued_render,
        } ==> state.estimate_fired() == QueueState::Queued(queued_render)
            && state.redraw_was_empty() == QueueState::WaitingForEstimatedVBlank(estimated_vblank),
        state.estimate_timer() is None ==> state.redraw_was_empty() is Idle,
        state is WaitingForVBlank ==> state.render_timer() is None && state.estimate_timer() is None,
        state is Idle ==> state.render_timer() is None && state.estimate_timer() is None,
        state matches QueueState::Queued(token) ==> state.render_timer() == Some(token),
        state matches QueueState::WaitingForEstimatedVBlank(token) ==> state.estimate_timer()
            == Some(token),
{
}

/// A redraw is about to run exactly where one is queued on an active thread, whether or not
/// an estimated vblank is awaited as well.
pub proof fn lemma_queued_redraws_run<T: Copy>(thread: SurfaceThreadState<T>)
    ensures
        thread.redrawing() <==> thread.has_compositor && (thread.state is Queued
            || thread.state is WaitingForEstimatedVBlankAndQueued),
        thread.well_formed() <==> thread.has_compositor || thread.state is Idle,
        thread.well_formed() && thread.state.render_timer() is Some ==> thread.redrawing(),
{
}

/// The numbers of frame callbacks count up by one, and start over behind the largest.
pub proof fn lemma_callbacks_count_up(n: usize)
    ensures
        n < usize::MAX ==> wrapping_next(n) == n + 1,
        n == usize::MAX ==> wrapping_next(n) == 0,
{
}

/// An output that mirrors another one leaves the callbacks to it; every other output
/// sends them under its current number.
pub proof fn lemma_mirrors_send_no_callbacks<T: Copy>(thread: SurfaceThreadState<T>)
    ensures
        thread.callbacks() is None <==> thread.mirroring is Some,
        thread.callbacks() matches Some(n) ==> n == thread.frame_callback_seq,
{
}

/// The interval is the nearest whole number of nanoseconds: so many of them in a second
/// as the rate says, up to half a nanosecond each. A higher rate never has a longer one.
pub proof fn lemma_interval_is_nearest(rate: int, higher: int)
    requires
        0 < rate <= higher,
    ensures
        -rate <= 2 * (interval_nanos(rate) * rate - 1000000000000) <= rate,
        2 * (interval_nanos(rate) * rate - 1000000000000) == rate ==> rate > 1024000,
        2 * (interval_nanos(rate) * rate - 1000000000000) == -rate ==> rate <= 1024000,
        interval_nanos(higher) <= interval_nanos(rate) + 1,
{
    let one = 1000000000000int;
    vstd::arithmetic::div_mod::lemma_fundamental_div_mod(one, rate);
    vstd::arithmetic::div_mod::lemma_mod_bound(one, rate);
    let (q, m) = (one / rate, one % rate);
    assert(q * rate == rate * q && (q + 1) * rate == q * rate + rate) by (nonlinear_arith);
    vstd::arithmetic::div_mod::lemma_div_is_ordered_by_denominator(one, rate, higher);
}

/// The longest interval is that of two frames more than the least rate, rounded to the
/// nearest nanosecond, and never below a thirtieth of a second.
pub proof fn lemma_longest_interval_is_nearest(hz: u32)
    ensures
        longest_interval(None) == 33333333,
        longest_interval(Some(hz)) >= 33333333,
        hz >= 28 ==> longest_interval(Some(hz)) == 33333333,
        hz < 28 ==> ({
            let rate = hz + 2;
            -rate <= 2 * (longest_interval(Some(hz)) * rate - 1000000000) <= rate
        }),
{
    let rate = hz + 2;
    let top = 2000000000 + rate;
    vstd::arithmetic::div_mod::lemma_fundamental_div_mod(top, 2 * rate);
    vstd::arithmetic::div_mod::lemma_mod_bound(top, 2 * rate);
    let q = top / (2 * rate);
    assert((2 * rate) * q == 2 * (q * rate)) by (nonlinear_arith);
    if hz >= 28 {
        assert(q <= 33333333) by (nonlinear_arith)
            requires
                2 * (q * rate) <= 2000000000 + rate,
                rate >= 30,
        ;
    } else {
        assert(q >= 33333333) by (nonlinear_arith)
            requires
                2000000000 + rate < 2 * (q * rate) + 2 * rate,
                2 <= rate <= 29,
        ;
    }
}

/// What clients are told of a frame: the device's time where it has one and the current
/// time otherwise, which of the two it is, the device's sequence number, and the interval
/// of the rate, which varies with adaptive sync.
pub proof fn lemma_presentation_tells_the_device(
    metadata: Option<VblankMetadata>,
    now: u64,
    rate: Option<u32>,
    vrr_enabled: bool,
)
    requires
        rate matches Some(rate) ==> rate > 0,
    ensures
        ({
            let told = presentation_of(metadata, now, rate, vrr_enabled);
            &&& metadata matches Some(data) ==> {
                &&& told.sequence == data.sequence
                &&& data.time matches Some(time) ==> told.time == time && told.hw_clock
                &&& data.time is None ==> told.time == now && !told.hw_clock
            }
            &&& metadata is None ==> told.sequence == 0 && told.time == now && !told.hw_clock
            &&& rate is None ==> told.refresh is Unknown
            &&& rate matches Some(rate) ==> {
                if vrr_enabled {
                    told.refresh matches Refresh::Variable(nanos) && nanos == interval_nanos(
                        rate as int,
                    )
                } else {
                    told.refresh matches Refresh::Fixed(nanos) && nanos == interval_nanos(
                        rate as int,
                    )
                }
            }
        }),
{
    if let Some(rate) = rate {
        vstd::arithmetic::div_mod::lemma_div_is_ordered_by_denominator(
            1000000000000,
            1,
            rate as int,
        );
        vstd::arithmetic::div_mod::lemma_div_pos_is_pos(1000000000000, rate as int);
    }
}

/// The timer of an estimated vblank fires at the estimated presentation, or an interval
/// from now where that has passed.
pub proof fn lemma_estimates_meet_the_presentation(target: u64, now: u64, interval: u64)
    ensures
        target > now ==> now + estimate_delay(target, now, interval) == target,
        target <= now ==> estimate_delay(target, now, interval) == interval,
{
}

} // verus!
