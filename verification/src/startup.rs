//! The program around the compositor: arguments, live tuning, and the decisions of
//! the main loop.
use vstd::prelude::*;
use vstd::string::StringExecFns;

use crate::output_config;
use crate::output_config::{HdrColorspace, OutputConfig, OutputInfo, OutputsConfig};
use crate::surface;
use crate::surface::HdrTuning;
use crate::text;

verus! {

// ---------------------------------------------------------------------------
// Arguments
// ---------------------------------------------------------------------------

/// `clap_lex::RawArgs`, the arguments of a process.
#[verifier::external_type_specification]
#[verifier::external_body]
pub struct ExRawArgs(clap_lex::RawArgs);

/// `clap_lex::ArgCursor`, a position among the arguments.
#[verifier::external_type_specification]
#[verifier::external_body]
pub struct ExArgCursor(clap_lex::ArgCursor);

/// The arguments in their order, each as text where it is UTF-8.
pub uninterp spec fn argument_items(args: clap_lex::RawArgs) -> Seq<Option<Seq<char>>>;

/// The index of the argument that comes next.
pub uninterp spec fn cursor_position(cursor: clap_lex::ArgCursor) -> nat;

/// Calls `clap_lex::RawArgs::cursor`, which starts at the first argument.
#[verifier::external_body]
fn argument_cursor(args: &clap_lex::RawArgs) -> (cursor: clap_lex::ArgCursor)
    ensures
        cursor_position(cursor) == 0,
{
    args.cursor()
}

/// Calls `clap_lex::RawArgs::next_os`, which returns the argument at the cursor and
/// moves the cursor on by one, or returns none behind the last argument. The
/// argument is converted to text; the inner value is absent where it is not UTF-8.
#[verifier::external_body]
fn next_argument(args: &clap_lex::RawArgs, cursor: &mut clap_lex::ArgCursor) -> (argument: Option<
    Option<String>,
>)
    ensures
        match argument {
            Some(text) => {
                &&& cursor_position(*old(cursor)) < argument_items(*args).len()
                &&& argument_items(*args)[cursor_position(*old(cursor)) as int] == (match text {
                    Some(text) => Some(text@),
                    None => None,
                })
                &&& cursor_position(*final(cursor)) == cursor_position(*old(cursor)) + 1
            },
            None => {
                &&& cursor_position(*old(cursor)) >= argument_items(*args).len()
                &&& cursor_position(*final(cursor)) >= cursor_position(*old(cursor))
            },
        },
{
    args.next_os(cursor).map(|argument| argument.to_str().map(|text| text.to_owned()))
}

/// What the arguments ask for.
#[derive(Debug, Clone, Copy, PartialEq, Eq, Structural)]
pub enum Invocation {
    ShowHelp,
    ShowVersion,
    Run { with_xwayland: bool },
}

pub open spec fn asks_for_help(argument: Option<Seq<char>>) -> bool {
    argument == Some("--help"@) || argument == Some("-h"@)
}

pub open spec fn asks_for_version(argument: Option<Seq<char>>) -> bool {
    argument == Some("--version"@) || argument == Some("-v"@) || argument == Some("-V"@)
}

/// What the arguments from index `i` on ask for. The first request for help or for
/// the version counts; other arguments are passed over.
pub open spec fn invocation_from(
    items: Seq<Option<Seq<char>>>,
    i: int,
    with_xwayland: bool,
) -> Invocation
    decreases items.len() - i,
{
    if i < 0 || i >= items.len() {
        Invocation::Run { with_xwayland }
    } else if asks_for_help(items[i]) {
        Invocation::ShowHelp
    } else if asks_for_version(items[i]) {
        Invocation::ShowVersion
    } else if items[i] == Some("--no-xwayland"@) {
        invocation_from(items, i + 1, false)
    } else {
        invocation_from(items, i + 1, with_xwayland)
    }
}

/// What an argument asks for.
#[derive(Debug, Clone, Copy, PartialEq, Eq, Structural)]
pub enum ArgumentKind {
    Help,
    Version,
    NoXwayland,
    Other,
}

/// Tells arguments apart.
pub fn classify_argument(argument: Option<&str>) -> (kind: ArgumentKind)
    ensures
        ({
            let item = match argument {
                Some(text) => Some(text@),
                None => None,
            };
            kind == if asks_for_help(item) {
                ArgumentKind::Help
            } else if asks_for_version(item) {
                ArgumentKind::Version
            } else if item == Some("--no-xwayland"@) {
                ArgumentKind::NoXwayland
            } else {
                ArgumentKind::Other
            }
        }),
{
    match argument {
        None => ArgumentKind::Other,
        Some(argument) => if text::same_text(argument, "--help") || text::same_text(argument, "-h") {
            ArgumentKind::Help
        } else if text::same_text(argument, "--version") || text::same_text(argument, "-v")
            || text::same_text(argument, "-V") {
            ArgumentKind::Version
        } else if text::same_text(argument, "--no-xwayland") {
            ArgumentKind::NoXwayland
        } else {
            ArgumentKind::Other
        },
    }
}

/// What the arguments of the process ask for.
pub fn parse_arguments(args: &clap_lex::RawArgs) -> (invocation: Invocation)
    ensures
        invocation == invocation_from(argument_items(*args), 0, true),
{
    let mut cursor: clap_lex::ArgCursor = argument_cursor(args);
    let mut with_xwayland: bool = true;
    loop
        invariant
            invocation_from(argument_items(*args), 0, true) == invocation_from(
                argument_items(*args),
                cursor_position(cursor) as int,
                with_xwayland,
            ),
        decreases argument_items(*args).len() - cursor_position(cursor),
    {
        match next_argument(args, &mut cursor) {
            None => {
                return Invocation::Run { with_xwayland };
            },
            Some(argument) => {
                let kind: ArgumentKind = match &argument {
                    Some(text) => classify_argument(Some(text.as_str())),
                    None => classify_argument(None),
                };
                match kind {
                    ArgumentKind::Help => {
                        return Invocation::ShowHelp;
                    },
                    ArgumentKind::Version => {
                        return Invocation::ShowVersion;
                    },
                    ArgumentKind::NoXwayland => {
                        with_xwayland = false;
                    },
                    ArgumentKind::Other => {},
                }
            },
        }
    }
}

/// Xwayland is left out if and only if an argument says so, whatever stands around
/// it.
pub proof fn lemma_xwayland_unless_asked(items: Seq<Option<Seq<char>>>, i: int, with: bool)
    requires
        0 <= i,
        invocation_from(items, i, with) is Run,
    ensures
        invocation_from(items, i, with) == (Invocation::Run {
            with_xwayland: with && !(exists|j: int|
                i <= j < items.len() && #[trigger] items[j] == Some("--no-xwayland"@)),
        }),
    decreases items.len() - i,
{
    if i < items.len() {
        let no = Some("--no-xwayland"@);
        let next = if items[i] == no {
            false
        } else {
            with
        };
        lemma_xwayland_unless_asked(items, i + 1, next);
    }
}

/// The name, version and revision of the program.
pub open spec fn version_line(version: Seq<char>, git_rev: Seq<char>) -> Seq<char> {
    "cosmic-comp "@ + version + " (git commit "@ + git_rev + ")"@
}

pub fn version_text(version: &str, git_rev: &str) -> (line: String)
    ensures
        line@ == version_line(version@, git_rev@),
{
    let mut line: String = "cosmic-comp ".to_owned();
    line.append(version);
    line.append(" (git commit ");
    line.append(git_rev);
    line.append(")");
    line
}

/// What the help says behind the name and version.
pub open spec fn help_body() -> Seq<char> {
    "\nSystem76 <info@system76.com>\n\nDesigned for the COSMIC\u{2122} desktop environment, cosmic-comp is a Wayland Compositor.\n\nProject home page: https://github.com/pop-os/cosmic-comp\n\nOptions:\n  -h, --help          Show this message\n  --no-xwayland       Run without Xwayland\n  -v, --version       Show the version of cosmic-comp"@
}

pub fn help_text(version: &str, git_rev: &str) -> (help: String)
    ensures
        help@ == version_line(version@, git_rev@) + help_body(),
{
    let mut help: String = version_text(version, git_rev);
    help.append(
        "\nSystem76 <info@system76.com>\n\nDesigned for the COSMIC\u{2122} desktop environment, cosmic-comp is a Wayland Compositor.\n\nProject home page: https://github.com/pop-os/cosmic-comp\n\nOptions:\n  -h, --help          Show this message\n  --no-xwayland       Run without Xwayland\n  -v, --version       Show the version of cosmic-comp",
    );
    help
}

// ---------------------------------------------------------------------------
// Readiness and the kiosk child
// ---------------------------------------------------------------------------

/// What is done once the compositor is ready.
#[derive(Debug)]
pub struct ReadyActions {
    /// Whether the service manager and the message bus are told.
    pub notify_services: bool,
    /// The command to run in kiosk mode, with its arguments.
    pub kiosk: Option<(String, Vec<String>)>,
}

/// Meets the report that the compositor is ready. Only the first one counts. `args`
/// are the arguments of the process, with its own name first; a further one is a
/// command to run.
pub fn notify_ready(ready: &mut bool, on_kms: bool, args: Vec<String>) -> (actions: Option<
    ReadyActions,
>)
    ensures
        *final(ready),
        actions is Some == !*old(ready),
        actions matches Some(actions) ==> {
            &&& actions.notify_services == on_kms
            &&& match actions.kiosk {
                Some((exec, rest)) => args@.len() >= 2 && exec == args@[1] && rest@ == args@.skip(
                    2,
                ),
                None => args@.len() < 2,
            }
        },
{
    if *ready {
        return None;
    }
    *ready = true;
    if args.len() < 2 {
        return Some(ReadyActions { notify_services: on_kms, kiosk: None });
    }
    let ghost all = args@;
    let mut args: Vec<String> = args;
    args.remove(0);
    assert(args@ =~= all.skip(1));
    let exec: String = args.remove(0);
    assert(args@ =~= all.skip(2));
    Some(ReadyActions { notify_services: on_kms, kiosk: Some((exec, args)) })
}

/// What is known of the kiosk child.
#[derive(Debug, Clone, Copy, PartialEq, Eq, Structural)]
pub enum ChildStatus {
    Running,
    /// With its exit code, unless a signal ended it.
    Exited(Option<i32>),
    /// It cannot be waited for.
    Lost,
}

/// The code that the compositor exits with, if the state of the kiosk child asks for
/// it.
pub fn kiosk_exit(status: ChildStatus) -> (code: Option<i32>)
    ensures
        code == match status {
            ChildStatus::Running => None,
            ChildStatus::Exited(Some(code)) => Some(code),
            ChildStatus::Exited(None) => Some(1i32),
            ChildStatus::Lost => Some(1i32),
        },
{
    match status {
        ChildStatus::Running => None,
        ChildStatus::Exited(Some(code)) => Some(code),
        ChildStatus::Exited(None) => Some(1),
        ChildStatus::Lost => Some(1),
    }
}

// ---------------------------------------------------------------------------
// The main loop
// ---------------------------------------------------------------------------

/// How a round of the main loop starts.
#[derive(Debug, Clone, Copy, PartialEq, Eq, Structural)]
pub struct LoopRound {
    /// Whether the configuration is read again and its tuning pushed.
    pub reload_tuning: bool,
    /// Whether the loop stops, with nothing more to do in this round.
    pub stop: bool,
}

/// Starts a round of the main loop. A request to reload is served once; it is served
/// even in the round in which the loop stops.
pub fn begin_round(reload_requested: &mut bool, should_stop: bool) -> (round: LoopRound)
    ensures
        round.reload_tuning == *old(reload_requested),
        round.stop == should_stop,
        !*final(reload_requested),
{
    let reload_tuning: bool = *reload_requested;
    *reload_requested = false;
    LoopRound { reload_tuning, stop: should_stop }
}

// ---------------------------------------------------------------------------
// Refresh
// ---------------------------------------------------------------------------

/// When the state was last refreshed. Times are in nanoseconds; `T` is the token of
/// a timer.
#[derive(Debug, PartialEq, Eq, Structural)]
pub enum LastRefresh<T> {
    Never,
    At(u64),
    /// A timer runs after which a refresh may follow.
    Scheduled(T),
}

/// The least time between refreshes, in nanoseconds.
pub const REFRESH_INTERVAL: u64 = 150000000;

/// How a round of the main loop deals with the refresh.
#[derive(Debug, Clone, Copy, PartialEq, Eq, Structural)]
pub enum RefreshStep {
    /// A timer runs already.
    Wait,
    /// Insert a timer over the interval. Where that fails, refresh.
    Defer,
    Refresh,
}

impl<T> LastRefresh<T> {
    pub open spec fn next_step(self, now: u64) -> RefreshStep {
        match self {
            LastRefresh::Scheduled(_) => RefreshStep::Wait,
            LastRefresh::At(last) => if now < last || now - last < REFRESH_INTERVAL {
                RefreshStep::Defer
            } else {
                RefreshStep::Refresh
            },
            LastRefresh::Never => RefreshStep::Refresh,
        }
    }

    /// How this round of the main loop deals with the refresh.
    pub fn refresh(&self, now: u64) -> (step: RefreshStep)
        ensures
            step == self.next_step(now),
    {
        match self {
            LastRefresh::Scheduled(_) => RefreshStep::Wait,
            LastRefresh::At(last) => if now < *last || now - *last < REFRESH_INTERVAL {
                RefreshStep::Defer
            } else {
                RefreshStep::Refresh
            },
            LastRefresh::Never => RefreshStep::Refresh,
        }
    }

    /// A refresh was done.
    pub fn refreshed(&mut self, now: u64)
        ensures
            *final(self) == LastRefresh::<T>::At(now),
    {
        *self = LastRefresh::At(now);
    }

    /// A timer was inserted.
    pub fn deferred(&mut self, token: T)
        ensures
            *final(self) == LastRefresh::Scheduled(token),
    {
        *self = LastRefresh::Scheduled(token);
    }

    /// The timer fired.
    pub fn timer_fired(&mut self)
        ensures
            *final(self) == LastRefresh::<T>::Never,
    {
        *self = LastRefresh::Never;
    }
}

/// Two refreshes without a timer in between are an interval apart, and while a timer
/// runs there is no refresh and no second timer.
pub proof fn lemma_refreshes_are_spaced<T>(last: LastRefresh<T>, now: u64)
    ensures
        last.next_step(now) is Refresh ==> (last matches LastRefresh::At(time) ==> now - time
            >= REFRESH_INTERVAL),
        last is Scheduled ==> last.next_step(now) is Wait,
{
}

// ---------------------------------------------------------------------------
// Live tuning
// ---------------------------------------------------------------------------

/// An output that is shown, with the configuration that is attached to it.
#[derive(Debug)]
pub struct TunedOutput {
    pub name: String,
    pub config: OutputConfig,
}

/// What is sent to the render thread of an output.
#[derive(Debug, Clone, Copy, PartialEq, Eq, Structural)]
pub struct HdrPush {
    /// The index of the output.
    pub output: usize,
    pub hdr_enabled: bool,
    /// The tuning, where HDR is on.
    pub tuning: Option<HdrTuning>,
    /// Whether clients are told that the description of the output changed.
    pub description_changed: bool,
}

/// The first configuration for a connector in a set of outputs, from index `i` on.
/// Outputs without a configuration are passed over.
pub open spec fn config_in_set(
    infos: Seq<OutputInfo>,
    configs: Seq<OutputConfig>,
    connector: Seq<char>,
    i: int,
) -> Option<OutputConfig>
    decreases infos.len() - i,
{
    if i < 0 || i >= infos.len() || i >= configs.len() {
        None
    } else if infos[i].connector@ == connector {
        Some(configs[i])
    } else {
        config_in_set(infos, configs, connector, i + 1)
    }
}

/// The first configuration for a connector in any set, from set `i` on.
pub open spec fn config_for(
    sets: Seq<(Vec<OutputInfo>, Vec<OutputConfig>)>,
    connector: Seq<char>,
    i: int,
) -> Option<OutputConfig>
    decreases sets.len() - i,
{
    if i < 0 || i >= sets.len() {
        None
    } else {
        match config_in_set(sets[i].0@, sets[i].1@, connector, 0) {
            Some(config) => Some(config),
            None => config_for(sets, connector, i + 1),
        }
    }
}

/// The configuration with the HDR settings of another one.
pub open spec fn with_hdr_of(config: OutputConfig, new: OutputConfig) -> OutputConfig {
    OutputConfig {
        hdr_enabled: new.hdr_enabled,
        hdr_colorspace: new.hdr_colorspace,
        hdr_reference_white: new.hdr_reference_white,
        hdr_gamut_strength: new.hdr_gamut_strength,
        hdr_saturation: new.hdr_saturation,
        hdr_midtone_gamma: new.hdr_midtone_gamma,
        hdr_test_pattern: new.hdr_test_pattern,
        ..config
    }
}

/// The tuning that a configuration stands for. Scene-linear compositing needs a
/// higher midtone gamma where none is set.
pub open spec fn tuning_of(config: OutputConfig, path_b: bool) -> HdrTuning {
    HdrTuning {
        colorspace: if config.hdr_colorspace == Some(HdrColorspace::DciP3) {
            HdrColorspace::DciP3
        } else {
            HdrColorspace::Bt2020
        },
        ref_white: match config.hdr_reference_white {
            Some(nits) => nits,
            None => 250,
        },
        gamut_strength: match config.hdr_gamut_strength {
            Some(percent) => percent,
            None => 100,
        },
        saturation: match config.hdr_saturation {
            Some(percent) => percent,
            None => 120,
        },
        midtone_gamma: match config.hdr_midtone_gamma {
            Some(percent) => percent,
            None => if path_b {
                150
            } else {
                70
            },
        },
        test_pattern: config.hdr_test_pattern == Some(true),
    }
}

/// The fields that clients are told about differ.
pub open spec fn description_differs(config: OutputConfig, new: OutputConfig) -> bool {
    config.hdr_enabled != new.hdr_enabled || config.hdr_colorspace != new.hdr_colorspace
        || config.hdr_reference_white != new.hdr_reference_white
}

/// What is sent for an output when its configuration is replaced by another one.
pub open spec fn push_for(
    config: OutputConfig,
    new: OutputConfig,
    path_b: bool,
    output: usize,
) -> HdrPush {
    HdrPush {
        output,
        hdr_enabled: new.hdr_enabled == Some(true),
        tuning: if new.hdr_enabled == Some(true) {
            Some(tuning_of(new, path_b))
        } else {
            None
        },
        description_changed: description_differs(config, new),
    }
}

/// What is sent for the first `n` outputs. Those without a configuration are passed
/// over.
pub open spec fn pushes(
    sets: Seq<(Vec<OutputInfo>, Vec<OutputConfig>)>,
    outputs: Seq<TunedOutput>,
    path_b: bool,
    n: nat,
) -> Seq<HdrPush>
    decreases n,
{
    if n == 0 {
        Seq::empty()
    } else {
        let less = pushes(sets, outputs, path_b, (n - 1) as nat);
        match config_for(sets, outputs[n - 1].name@, 0) {
            Some(new) => less.push(
                push_for(outputs[n - 1].config, new, path_b, (n - 1) as usize),
            ),
            None => less,
        }
    }
}

/// The output with the HDR settings that are configured for it.
pub open spec fn tuned(
    sets: Seq<(Vec<OutputInfo>, Vec<OutputConfig>)>,
    output: TunedOutput,
) -> TunedOutput {
    match config_for(sets, output.name@, 0) {
        Some(new) => TunedOutput { config: with_hdr_of(output.config, new), ..output },
        None => output,
    }
}

fn find_config<'a>(outputs: &'a OutputsConfig, connector: &String) -> (config: Option<
    &'a OutputConfig,
>)
    ensures
        match config_for(outputs.config@, connector@, 0) {
            Some(found) => config == Some(&found),
            None => config is None,
        },
{
    let mut i: usize = 0;
    while i < outputs.config.len()
        invariant
            i <= outputs.config@.len(),
            config_for(outputs.config@, connector@, 0) == config_for(
                outputs.config@,
                connector@,
                i as int,
            ),
        decreases outputs.config@.len() - i,
    {
        let infos: &Vec<OutputInfo> = &outputs.config[i].0;
        let configs: &Vec<OutputConfig> = &outputs.config[i].1;
        let mut j: usize = 0;
        while j < infos.len() && j < configs.len()
            invariant
                i < outputs.config@.len(),
                infos == outputs.config@[i as int].0,
                configs == outputs.config@[i as int].1,
                j <= infos@.len(),
                j <= configs@.len(),
                config_for(outputs.config@, connector@, 0) == config_for(
                    outputs.config@,
                    connector@,
                    i as int,
                ),
                config_in_set(infos@, configs@, connector@, 0) == config_in_set(
                    infos@,
                    configs@,
                    connector@,
                    j as int,
                ),
            decreases infos@.len() - j,
        {
            if infos[j].connector == *connector {
                return Some(&configs[j]);
            }
            j += 1;
        }
        i += 1;
    }
    None
}

fn tuning_for(config: &OutputConfig, path_b: bool) -> (tuning: HdrTuning)
    ensures
        tuning == tuning_of(*config, path_b),
{
    HdrTuning {
        colorspace: match config.hdr_colorspace {
            Some(HdrColorspace::DciP3) => HdrColorspace::DciP3,
            _ => HdrColorspace::Bt2020,
        },
        ref_white: match config.hdr_reference_white {
            Some(nits) => nits,
            None => 250,
        },
        gamut_strength: match config.hdr_gamut_strength {
            Some(percent) => percent,
            None => 100,
        },
        saturation: match config.hdr_saturation {
            Some(percent) => percent,
            None => 120,
        },
        midtone_gamma: match config.hdr_midtone_gamma {
            Some(percent) => percent,
            None => if path_b {
                150
            } else {
                70
            },
        },
        test_pattern: match config.hdr_test_pattern {
            Some(on) => on,
            None => false,
        },
    }
}

/// Takes over the HDR settings of a configuration that was just read, without
/// applying the rest of it. Returns what is sent to the render threads.
pub fn push_hdr_tuning_to_surfaces(
    configured: &OutputsConfig,
    outputs: &mut Vec<TunedOutput>,
    path_b: bool,
) -> (sent: Vec<HdrPush>)
    ensures
        final(outputs)@.len() == old(outputs)@.len(),
        forall|i: int|
            0 <= i < old(outputs)@.len() ==> #[trigger] final(outputs)@[i] == tuned(
                configured.config@,
                old(outputs)@[i],
            ),
        sent@ == pushes(configured.config@, old(outputs)@, path_b, old(outputs)@.len()),
{
    let ghost before = outputs@;
    let mut sent: Vec<HdrPush> = Vec::new();
    let mut i: usize = 0;
    while i < outputs.len()
        invariant
            i <= outputs@.len(),
            outputs@.len() == before.len(),
            forall|k: int|
                0 <= k < i ==> #[trigger] outputs@[k] == tuned(configured.config@, before[k]),
            forall|k: int| i <= k < before.len() ==> #[trigger] outputs@[k] == before[k],
            sent@ == pushes(configured.config@, before, path_b, i as nat),
        decreases outputs@.len() - i,
    {
        match find_config(configured, &outputs[i].name) {
            None => {},
            Some(new) => {
                let differs: bool = outputs[i].config.hdr_enabled != new.hdr_enabled
                    || outputs[i].config.hdr_colorspace != new.hdr_colorspace
                    || outputs[i].config.hdr_reference_white != new.hdr_reference_white;
                outputs[i].config.hdr_enabled = new.hdr_enabled;
                outputs[i].config.hdr_colorspace = new.hdr_colorspace;
                outputs[i].config.hdr_reference_white = new.hdr_reference_white;
                outputs[i].config.hdr_gamut_strength = new.hdr_gamut_strength;
                outputs[i].config.hdr_saturation = new.hdr_saturation;
                outputs[i].config.hdr_midtone_gamma = new.hdr_midtone_gamma;
                outputs[i].config.hdr_test_pattern = new.hdr_test_pattern;
                let hdr_on: bool = match new.hdr_enabled {
                    Some(on) => on,
                    None => false,
                };
                let tuning: Option<HdrTuning> = if hdr_on {
                    Some(tuning_for(new, path_b))
                } else {
                    None
                };
                sent.push(
                    HdrPush {
                        output: i,
                        hdr_enabled: hdr_on,
                        tuning,
                        description_changed: differs,
                    },
                );
            },
        }
        i += 1;
    }
    sent
}

/// Only HDR settings are taken over, and pushing the same configuration again
/// changes nothing more and tells clients nothing.
pub proof fn lemma_push_is_idempotent(
    sets: Seq<(Vec<OutputInfo>, Vec<OutputConfig>)>,
    output: TunedOutput,
    path_b: bool,
    i: usize,
)
    ensures
        tuned(sets, tuned(sets, output)) == tuned(sets, output),
        config_for(sets, output.name@, 0) matches Some(new) ==> {
            let after = tuned(sets, output).config;
            &&& !push_for(after, new, path_b, i).description_changed
            &&& after.mode == output.config.mode
            &&& after.scale_bits == output.config.scale_bits
            &&& after.transform == output.config.transform
            &&& after.position == output.config.position
            &&& after.enabled == output.config.enabled
            &&& after.vrr == output.config.vrr
            &&& after.max_bpc == output.config.max_bpc
            &&& after.xwayland_primary == output.config.xwayland_primary
        },
{
}

/// The program shows its help or its version exactly if an argument asks for it, and of two
/// such arguments the first counts: nothing before it asks for either.
pub proof fn lemma_first_request_counts(items: Seq<Option<Seq<char>>>, i: int, with: bool)
    requires
        0 <= i,
    ensures
        invocation_from(items, i, with) is ShowHelp <==> exists|j: int|
            {
                &&& i <= j < items.len()
                &&& #[trigger] items[j] == Some("--help"@) || items[j] == Some("-h"@)
                &&& forall|k: int|
                    i <= k < j ==> #[trigger] items[k] != Some("--version"@) && items[k] != Some(
                        "-v"@,
                    ) && items[k] != Some("-V"@)
            },
        invocation_from(items, i, with) is Run <==> forall|j: int|
            i <= j < items.len() ==> #[trigger] items[j] != Some("--help"@) && items[j] != Some(
                "-h"@,
            ) && items[j] != Some("--version"@) && items[j] != Some("-v"@) && items[j] != Some(
                "-V"@,
            ),
    decreases items.len() - i,
{
    lemma_requests_differ();
    if i < items.len() {
        let next = with && items[i] != Some("--no-xwayland"@);
        lemma_first_request_counts(items, i + 1, next);
        if asks_for_help(items[i]) {
            assert(items[i] == items[i]);
        } else if !asks_for_version(items[i]) {
            if invocation_from(items, i + 1, next) is ShowHelp {
                let j = choose|j: int|
                    {
                        &&& i + 1 <= j < items.len()
                        &&& #[trigger] items[j] == Some("--help"@) || items[j] == Some("-h"@)
                        &&& forall|k: int|
                            i + 1 <= k < j ==> #[trigger] items[k] != Some("--version"@)
                                && items[k] != Some("-v"@) && items[k] != Some("-V"@)
                    };
                assert(i <= j < items.len());
            }
        }
    }
}

proof fn lemma_requests_differ()
    ensures
        "--help"@ != "--version"@,
        "--help"@ != "-v"@,
        "--help"@ != "-V"@,
        "-h"@ != "--version"@,
        "-h"@ != "-v"@,
        "-h"@ != "-V"@,
{
    reveal_strlit("--help");
    reveal_strlit("-h");
    reveal_strlit("--version");
    reveal_strlit("-v");
    reveal_strlit("-V");
    assert("--help"@.len() == 6 && "-h"@.len() == 2 && "--version"@.len() == 9);
    assert("-v"@.len() == 2 && "-V"@.len() == 2);
    assert("-h"@[1] == 'h' && "-v"@[1] == 'v' && "-V"@[1] == 'V');
}

/// Arguments that ask for nothing may stand anywhere: leaving one out changes nothing.
pub proof fn lemma_other_arguments_are_passed_over(
    items: Seq<Option<Seq<char>>>,
    other: Option<Seq<char>>,
    with: bool,
)
    requires
        other != Some("--help"@),
        other != Some("-h"@),
        other != Some("--version"@),
        other != Some("-v"@),
        other != Some("-V"@),
        other != Some("--no-xwayland"@),
    ensures
        invocation_from(seq![other] + items, 0, with) == invocation_from(items, 0, with),
        invocation_from(items.push(other), 0, with) == invocation_from(items, 0, with),
{
    assert((seq![other] + items)[0] == other);
    lemma_invocation_of_suffix(seq![other], items, 0, with);
    lemma_invocation_of_prefix(items, other, 0, with);
}

proof fn lemma_invocation_of_suffix(
    front: Seq<Option<Seq<char>>>,
    items: Seq<Option<Seq<char>>>,
    i: int,
    with: bool,
)
    requires
        0 <= i,
    ensures
        invocation_from(front + items, front.len() + i, with) == invocation_from(items, i, with),
    decreases items.len() - i,
{
    if i < items.len() {
        assert((front + items)[front.len() + i] == items[i]);
        lemma_invocation_of_suffix(front, items, i + 1, true);
        lemma_invocation_of_suffix(front, items, i + 1, false);
    }
}

proof fn lemma_invocation_of_prefix(
    items: Seq<Option<Seq<char>>>,
    other: Option<Seq<char>>,
    i: int,
    with: bool,
)
    requires
        0 <= i <= items.len(),
        !asks_for_help(other),
        !asks_for_version(other),
        other != Some("--no-xwayland"@),
    ensures
        invocation_from(items.push(other), i, with) == invocation_from(items, i, with),
    decreases items.len() - i,
{
    if i < items.len() {
        assert(items.push(other)[i] == items[i]);
        lemma_invocation_of_prefix(items, other, i + 1, true);
        lemma_invocation_of_prefix(items, other, i + 1, false);
    } else {
        assert(items.push(other)[i] == other);
        assert(invocation_from(items.push(other), i + 1, with) == Invocation::Run {
            with_xwayland: with,
        });
    }
}

/// A refresh is due exactly where none was done yet or the last one is at least 150
/// milliseconds old, and no timer runs; it is put off exactly where the last one is newer.
pub proof fn lemma_refresh_is_due<T>(last: LastRefresh<T>, now: u64)
    ensures
        last.next_step(now) is Wait <==> last is Scheduled,
        last is Never ==> last.next_step(now) is Refresh,
        last matches LastRefresh::At(time) ==> (last.next_step(now) is Refresh <==> time
            + 150_000_000 <= now),
        last matches LastRefresh::At(time) ==> (last.next_step(now) is Defer <==> now < time
            + 150_000_000),
{
}

/// A setting that is configured is taken over as it is. Without one, SDR white is at 250
/// cd/m², the gamut remap is full, saturation is raised by a fifth, and the midtones are
/// lifted, or lowered where compositing is scene-linear.
pub proof fn lemma_tuning_takes_settings_over(config: OutputConfig, path_b: bool)
    ensures
        ({
            let tuning = tuning_of(config, path_b);
            &&& config.hdr_colorspace matches Some(colorspace) ==> tuning.colorspace == colorspace
            &&& config.hdr_colorspace is None ==> tuning.colorspace == HdrColorspace::Bt2020
            &&& config.hdr_reference_white matches Some(nits) ==> tuning.ref_white == nits
            &&& config.hdr_reference_white is None ==> tuning.ref_white == 250
            &&& config.hdr_gamut_strength matches Some(percent) ==> tuning.gamut_strength
                == percent
            &&& config.hdr_gamut_strength is None ==> tuning.gamut_strength == 100
            &&& config.hdr_saturation matches Some(percent) ==> tuning.saturation == percent
            &&& config.hdr_saturation is None ==> tuning.saturation == 120
            &&& config.hdr_midtone_gamma matches Some(percent) ==> tuning.midtone_gamma == percent
            &&& config.hdr_midtone_gamma is None && path_b ==> tuning.midtone_gamma == 150
            &&& config.hdr_midtone_gamma is None && !path_b ==> tuning.midtone_gamma == 70
            &&& config.hdr_test_pattern matches Some(on) ==> tuning.test_pattern == on
            &&& config.hdr_test_pattern is None ==> !tuning.test_pattern
        }),
{
}

/// All HDR settings are taken over, set or not, and no other setting is.
pub proof fn lemma_hdr_settings_are_replaced(config: OutputConfig, new: OutputConfig)
    ensures
        ({
            let after = with_hdr_of(config, new);
            &&& after.hdr_enabled == new.hdr_enabled
            &&& after.hdr_colorspace == new.hdr_colorspace
            &&& after.hdr_reference_white == new.hdr_reference_white
            &&& after.hdr_gamut_strength == new.hdr_gamut_strength
            &&& after.hdr_saturation == new.hdr_saturation
            &&& after.hdr_midtone_gamma == new.hdr_midtone_gamma
            &&& after.hdr_test_pattern == new.hdr_test_pattern
            &&& after.mode == config.mode
            &&& after.vrr == config.vrr
            &&& after.scale_bits == config.scale_bits
            &&& after.transform == config.transform
            &&& after.position == config.position
            &&& after.enabled == config.enabled
            &&& after.max_bpc == config.max_bpc
            &&& after.xwayland_primary == config.xwayland_primary
        }),
        with_hdr_of(with_hdr_of(config, new), config) == config,
        forall|path_b: bool| #[trigger]
            tuning_of(with_hdr_of(config, new), path_b) == tuning_of(new, path_b),
{
}

/// A thread is told whether HDR is on, with a tuning exactly if it is. Clients hear of a
/// change exactly if it touches what outputs are described by.
pub proof fn lemma_pushes_tell_what_changed(
    config: OutputConfig,
    new: OutputConfig,
    path_b: bool,
    output: usize,
)
    ensures
        ({
            let push = push_for(config, new, path_b, output);
            &&& push.output == output
            &&& push.hdr_enabled <==> new.hdr_enabled == Some(true)
            &&& push.tuning is Some <==> new.hdr_enabled == Some(true)
            &&& push.tuning matches Some(tuning) ==> tuning == tuning_of(new, path_b)
            &&& push.description_changed <==> !(config.hdr_enabled == new.hdr_enabled
                && config.hdr_colorspace == new.hdr_colorspace && config.hdr_reference_white
                == new.hdr_reference_white)
        }),
{
}

/// The configuration for a connector stands beside the first entry that names it, and there
/// is none exactly if no entry with a configuration does.
pub proof fn lemma_first_config_in_set(
    infos: Seq<OutputInfo>,
    configs: Seq<OutputConfig>,
    connector: Seq<char>,
    i: int,
)
    requires
        0 <= i,
    ensures
        match config_in_set(infos, configs, connector, i) {
            Some(config) => exists|j: int|
                {
                    &&& i <= j < infos.len() && j < configs.len()
                    &&& (#[trigger] infos[j]).connector@ == connector
                    &&& configs[j] == config
                    &&& forall|k: int| i <= k < j ==> (#[trigger] infos[k]).connector@ != connector
                },
            None => forall|j: int|
                i <= j < infos.len() && j < configs.len() ==> (#[trigger] infos[j]).connector@
                    != connector,
        },
    decreases infos.len() - i,
{
    if i < infos.len() && i < configs.len() {
        if infos[i].connector@ != connector {
            lemma_first_config_in_set(infos, configs, connector, i + 1);
            if let Some(config) = config_in_set(infos, configs, connector, i + 1) {
                let j = choose|j: int|
                    {
                        &&& i + 1 <= j < infos.len() && j < configs.len()
                        &&& (#[trigger] infos[j]).connector@ == connector
                        &&& configs[j] == config
                        &&& forall|k: int|
                            i + 1 <= k < j ==> (#[trigger] infos[k]).connector@ != connector
                    };
                assert(infos[j].connector@ == connector);
            }
        } else {
            assert(infos[i].connector@ == connector);
        }
    }
}

/// Of all sets the first one that has a configuration for the connector counts.
pub proof fn lemma_first_set_counts(
    sets: Seq<(Vec<OutputInfo>, Vec<OutputConfig>)>,
    connector: Seq<char>,
    i: int,
)
    requires
        0 <= i,
    ensures
        match config_for(sets, connector, i) {
            Some(config) => exists|s: int|
                {
                    &&& i <= s < sets.len()
                    &&& config_in_set((#[trigger] sets[s]).0@, sets[s].1@, connector, 0) == Some(
                        config,
                    )
                    &&& forall|k: int|
                        i <= k < s ==> config_in_set(
                            (#[trigger] sets[k]).0@,
                            sets[k].1@,
                            connector,
                            0,
                        ) is None
                },
            None => forall|s: int|
                i <= s < sets.len() ==> config_in_set(
                    (#[trigger] sets[s]).0@,
                    sets[s].1@,
                    connector,
                    0,
                ) is None,
        },
    decreases sets.len() - i,
{
    if i < sets.len() {
        if config_in_set(sets[i].0@, sets[i].1@, connector, 0) is None {
            lemma_first_set_counts(sets, connector, i + 1);
            if let Some(config) = config_for(sets, connector, i + 1) {
                let s = choose|s: int|
                    {
                        &&& i + 1 <= s < sets.len()
                        &&& config_in_set((#[trigger] sets[s]).0@, sets[s].1@, connector, 0)
                            == Some(config)
                        &&& forall|k: int|
                            i + 1 <= k < s ==> config_in_set(
                                (#[trigger] sets[k]).0@,
                                sets[k].1@,
                                connector,
                                0,
                            ) is None
                    };
                assert(config_in_set(sets[s].0@, sets[s].1@, connector, 0) == Some(config));
            }
        } else {
            assert(config_in_set(sets[i].0@, sets[i].1@, connector, 0) is Some);
        }
    }
}

/// A thread is sent something exactly if its output is configured. What is sent goes out in
/// the order of the outputs.
pub proof fn lemma_configured_outputs_are_pushed(
    sets: Seq<(Vec<OutputInfo>, Vec<OutputConfig>)>,
    outputs: Seq<TunedOutput>,
    path_b: bool,
    n: nat,
)
    requires
        n <= outputs.len(),
        n <= usize::MAX,
    ensures
        ({
            let sent = pushes(sets, outputs, path_b, n);
            &&& forall|i: int|
                0 <= i < n ==> (config_for(sets, (#[trigger] outputs[i]).name@, 0) is Some
                    <==> exists|k: int| 0 <= k < sent.len() && (#[trigger] sent[k]).output == i)
            &&& forall|k: int|
                0 <= k < sent.len() ==> (#[trigger] sent[k]).output < n && (config_for(
                    sets,
                    outputs[sent[k].output as int].name@,
                    0,
                ) matches Some(new) && sent[k] == push_for(
                    outputs[sent[k].output as int].config,
                    new,
                    path_b,
                    sent[k].output,
                ))
            &&& forall|j: int, k: int|
                0 <= j < k < sent.len() ==> (#[trigger] sent[j]).output < (
                #[trigger] sent[k]).output
        }),
    decreases n,
{
    if n > 0 {
        let less = (n - 1) as nat;
        lemma_configured_outputs_are_pushed(sets, outputs, path_b, less);
        let (before, sent) = (
            pushes(sets, outputs, path_b, less),
            pushes(sets, outputs, path_b, n),
        );
        assert forall|k: int| 0 <= k < before.len() implies sent[k] == #[trigger] before[k] by {}
        assert forall|i: int| 0 <= i < n implies (config_for(
            sets,
            (#[trigger] outputs[i]).name@,
            0,
        ) is Some <==> exists|k: int| 0 <= k < sent.len() && (#[trigger] sent[k]).output == i) by {
            if i < less {
                if config_for(sets, outputs[i].name@, 0) is Some {
                    let k = choose|k: int|
                        0 <= k < before.len() && (#[trigger] before[k]).output == i;
                    assert(sent[k].output == i);
                }
                if exists|k: int| 0 <= k < sent.len() && (#[trigger] sent[k]).output == i {
                    let k = choose|k: int| 0 <= k < sent.len() && (#[trigger] sent[k]).output == i;
                    if k < before.len() {
                        assert(before[k].output == i);
                    }
                }
            } else {
                if config_for(sets, outputs[i].name@, 0) is Some {
                    assert(sent[before.len() as int].output == i);
                } else {
                    assert(sent == before);
                }
            }
        }
    }
}

/// The version line names the program, and then the version and the revision in full.
pub proof fn lemma_version_line_names_both(version: Seq<char>, git_rev: Seq<char>)
    ensures
        ({
            let (line, v, g) = (
                version_line(version, git_rev),
                version.len() as int,
                git_rev.len() as int,
            );
            &&& line.len() == v + g + 26
            &&& line.subrange(0, 12) == "cosmic-comp "@
            &&& line.subrange(12, 12 + v) == version
            &&& line.subrange(12 + v, 25 + v) == " (git commit "@
            &&& line.subrange(25 + v, 25 + v + g) == git_rev
            &&& line.last() == ')'
        }),
{
    reveal_strlit("cosmic-comp ");
    reveal_strlit(" (git commit ");
    reveal_strlit(")");
    let (line, v, g) = (
        version_line(version, git_rev),
        version.len() as int,
        git_rev.len() as int,
    );
    assert(line.subrange(0, 12) =~= "cosmic-comp "@);
    assert(line.subrange(12, 12 + v) =~= version);
    assert(line.subrange(12 + v, 25 + v) =~= " (git commit "@);
    assert(line.subrange(25 + v, 25 + v + g) =~= git_rev);
}

/// A thread starts with the tuning of an output for which nothing is configured, without
/// scene-linear compositing.
pub proof fn lemma_threads_start_untuned()
    ensures
        surface::initial_tuning() == tuning_of(output_config::default_config(), false),
{
}

} // verus!
