use clap_lex::RawArgs;
use cosmic_comp::output_config::{HdrColorspace, OutputConfig, OutputInfo, OutputsConfig};
use cosmic_comp::startup::{
    begin_round, classify_argument, help_text, kiosk_exit, notify_ready, parse_arguments,
    push_hdr_tuning_to_surfaces, version_text, ArgumentKind, ChildStatus, Invocation, LastRefresh,
    RefreshStep, TunedOutput, REFRESH_INTERVAL,
};

fn parse(args: &[&str]) -> Invocation {
    parse_arguments(&RawArgs::new(args))
}

#[test]
fn arguments() {
    assert_eq!(parse(&["cosmic-comp"]), Invocation::Run { with_xwayland: true });
    assert_eq!(
        parse(&["cosmic-comp", "--no-xwayland"]),
        Invocation::Run { with_xwayland: false }
    );
    assert_eq!(parse(&["cosmic-comp", "-h"]), Invocation::ShowHelp);
    assert_eq!(parse(&["cosmic-comp", "--help"]), Invocation::ShowHelp);
    assert_eq!(parse(&["cosmic-comp", "-V"]), Invocation::ShowVersion);
    assert_eq!(parse(&["cosmic-comp", "-v"]), Invocation::ShowVersion);
    assert_eq!(parse(&["cosmic-comp", "--version"]), Invocation::ShowVersion);
    assert_eq!(parse(&[]), Invocation::Run { with_xwayland: true });
}

#[test]
fn the_first_question_is_answered() {
    assert_eq!(
        parse(&["cosmic-comp", "--no-xwayland", "term", "-V", "-h"]),
        Invocation::ShowVersion
    );
    assert_eq!(
        parse(&["cosmic-comp", "term", "--no-xwayland", "x"]),
        Invocation::Run { with_xwayland: false }
    );
    assert_eq!(
        parse(&["cosmic-comp", "--no-xwayland=1"]),
        Invocation::Run { with_xwayland: true }
    );
}

#[test]
fn argument_kinds() {
    assert_eq!(classify_argument(Some("--help")), ArgumentKind::Help);
    assert_eq!(classify_argument(Some("-V")), ArgumentKind::Version);
    assert_eq!(classify_argument(Some("--no-xwayland")), ArgumentKind::NoXwayland);
    assert_eq!(classify_argument(Some("--verbose")), ArgumentKind::Other);
    assert_eq!(classify_argument(None), ArgumentKind::Other);
}

#[test]
fn printed_texts() {
    let version = version_text("1.0.0", "abcdef");
    assert_eq!(version, "cosmic-comp 1.0.0 (git commit abcdef)");
    let help = help_text("1.0.0", "abcdef");
    assert!(help.starts_with(&version));
    assert!(help.contains("--no-xwayland"));
    assert!(help.contains("-h, --help"));
    assert!(help.contains("--version"));
}

#[test]
fn readiness_is_told_once() {
    let mut ready = false;
    let args: Vec<String> = ["cosmic-comp", "term", "-e", "sh"].map(str::to_string).to_vec();
    let actions = notify_ready(&mut ready, true, args.clone()).unwrap();
    assert!(actions.notify_services);
    let (exec, rest) = actions.kiosk.unwrap();
    assert_eq!(exec, "term");
    assert_eq!(rest, vec!["-e".to_string(), "sh".to_string()]);
    assert!(ready);
    assert!(notify_ready(&mut ready, true, args).is_none());
    let mut ready = false;
    let actions = notify_ready(&mut ready, false, vec!["cosmic-comp".to_string()]).unwrap();
    assert!(!actions.notify_services);
    assert!(actions.kiosk.is_none());
}

#[test]
fn kiosk_exit_codes() {
    assert_eq!(kiosk_exit(ChildStatus::Running), None);
    assert_eq!(kiosk_exit(ChildStatus::Exited(Some(0))), Some(0));
    assert_eq!(kiosk_exit(ChildStatus::Exited(Some(3))), Some(3));
    assert_eq!(kiosk_exit(ChildStatus::Exited(None)), Some(1));
    assert_eq!(kiosk_exit(ChildStatus::Lost), Some(1));
}

#[test]
fn rounds_of_the_main_loop() {
    let mut requested = true;
    let round = begin_round(&mut requested, false);
    assert!(round.reload_tuning && !round.stop);
    let round = begin_round(&mut requested, true);
    assert!(!round.reload_tuning && round.stop);
}

#[test]
fn refreshes_are_spaced() {
    let mut last: LastRefresh<u32> = LastRefresh::Never;
    assert_eq!(last.refresh(5), RefreshStep::Refresh);
    last.refreshed(1000);
    assert_eq!(last.refresh(1000 + REFRESH_INTERVAL - 1), RefreshStep::Defer);
    assert_eq!(last.refresh(1000 + REFRESH_INTERVAL), RefreshStep::Refresh);
    last.deferred(7);
    assert_eq!(last.refresh(u64::MAX), RefreshStep::Wait);
    last.timer_fired();
    assert_eq!(last.refresh(1001), RefreshStep::Refresh);
}

fn output(name: &str, config: OutputConfig) -> TunedOutput {
    TunedOutput { name: name.to_string(), config }
}

fn configured(connector: &str, config: OutputConfig) -> OutputsConfig {
    let info = OutputInfo {
        connector: connector.to_string(),
        make: "Make".to_string(),
        model: "Model".to_string(),
    };
    OutputsConfig { config: vec![(vec![info], vec![config])] }
}

#[test]
fn tuning_is_pushed_to_configured_outputs() {
    let new = OutputConfig {
        hdr_enabled: Some(true),
        hdr_colorspace: Some(HdrColorspace::DciP3),
        hdr_reference_white: Some(300),
        hdr_saturation: Some(130),
        position: (7, 7),
        ..OutputConfig::default()
    };
    let mut outputs = vec![
        output("HDMI-A-1", OutputConfig::default()),
        output("DP-1", OutputConfig::default()),
    ];
    let configured = configured("DP-1", new);
    let sent = push_hdr_tuning_to_surfaces(&configured, &mut outputs, false);
    assert_eq!(sent.len(), 1);
    assert_eq!(sent[0].output, 1);
    assert!(sent[0].hdr_enabled);
    assert!(sent[0].description_changed);
    let tuning = sent[0].tuning.unwrap();
    assert_eq!(tuning.colorspace, HdrColorspace::DciP3);
    assert_eq!(tuning.ref_white, 300);
    assert_eq!(tuning.gamut_strength, 100);
    assert_eq!(tuning.saturation, 130);
    assert_eq!(tuning.midtone_gamma, 70);
    assert!(!tuning.test_pattern);
    assert_eq!(outputs[0].config, OutputConfig::default());
    assert_eq!(outputs[1].config.hdr_enabled, Some(true));
    assert_eq!(outputs[1].config.position, (0, 0));
    // Once more, and nothing is new; scene-linear compositing has its own gamma.
    let sent = push_hdr_tuning_to_surfaces(&configured, &mut outputs, true);
    assert!(!sent[0].description_changed);
    assert_eq!(sent[0].tuning.unwrap().midtone_gamma, 150);
}

#[test]
fn disabled_outputs_get_no_tuning() {
    let new = OutputConfig { hdr_enabled: None, ..OutputConfig::default() };
    let before = OutputConfig { hdr_enabled: Some(true), ..OutputConfig::default() };
    let mut outputs = vec![output("DP-1", before)];
    let sent = push_hdr_tuning_to_surfaces(&configured("DP-1", new), &mut outputs, false);
    assert!(!sent[0].hdr_enabled);
    assert_eq!(sent[0].tuning, None);
    assert!(sent[0].description_changed);
    assert_eq!(outputs[0].config.hdr_enabled, None);
}
