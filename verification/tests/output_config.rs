use cosmic_comp::output_config::{
    default_state, default_sync, load_outputs, sanitize_mirroring, AdaptiveSync, HdrColorspace,
    OutputConfig, OutputInfo, OutputState, OutputsConfig, OutputsSource, TransformDef,
};

fn info(connector: &str) -> OutputInfo {
    OutputInfo {
        connector: connector.to_string(),
        make: "Make".to_string(),
        model: "Model".to_string(),
    }
}

fn config(enabled: OutputState) -> OutputConfig {
    OutputConfig { enabled, ..OutputConfig::default() }
}

fn mirror(connector: &str) -> OutputConfig {
    config(OutputState::Mirroring(connector.to_string()))
}

#[test]
fn default_configuration() {
    let config = OutputConfig::default();
    assert_eq!(config.mode, ((0, 0), None));
    assert_eq!(config.vrr, AdaptiveSync::Enabled);
    assert_eq!(f64::from_bits(config.scale_bits), 1.0);
    assert_eq!(config.transform, TransformDef::Normal);
    assert_eq!(config.position, (0, 0));
    assert_eq!(config.enabled, OutputState::Enabled);
    assert_eq!(config.max_bpc, None);
    assert!(!config.xwayland_primary);
    assert_eq!(config.hdr_enabled, None);
    assert_eq!(config.hdr_test_pattern, None);
    assert_eq!(default_state(), OutputState::Enabled);
    assert_eq!(default_sync(), AdaptiveSync::Enabled);
    assert_eq!(HdrColorspace::default(), HdrColorspace::Bt2020);
}

#[test]
fn clones_are_equal() {
    let config = mirror("DP-1");
    assert_eq!(config.clone(), config);
    assert_eq!(info("DP-1").clone(), info("DP-1"));
}

#[test]
fn valid_mirroring_is_kept() {
    let infos = vec![info("DP-1"), info("DP-2")];
    let mut configs = vec![config(OutputState::Enabled), mirror("DP-1")];
    let before = configs.clone();
    sanitize_mirroring(&infos, &mut configs);
    assert_eq!(configs, before);
}

#[test]
fn invalid_mirroring_becomes_enabled() {
    let infos = vec![info("DP-1"), info("DP-2"), info("DP-3"), info("DP-4"), info("DP-5")];
    let mut configs = vec![
        config(OutputState::Disabled),
        mirror("DP-1"),
        mirror("HDMI-A-1"),
        mirror("DP-2"),
        mirror("DP-5"),
    ];
    configs[1].max_bpc = Some(10);
    sanitize_mirroring(&infos, &mut configs);
    // A disabled output, one that is not there, a mirror and itself.
    assert_eq!(configs[0].enabled, OutputState::Disabled);
    for i in 1..5 {
        assert_eq!(configs[i].enabled, OutputState::Enabled, "config {}", i);
    }
    assert_eq!(configs[1].max_bpc, Some(10));
}

#[test]
fn mutual_mirrors_are_both_enabled() {
    let infos = vec![info("DP-1"), info("DP-2")];
    let mut configs = vec![mirror("DP-2"), mirror("DP-1")];
    sanitize_mirroring(&infos, &mut configs);
    assert_eq!(configs[0].enabled, OutputState::Enabled);
    assert_eq!(configs[1].enabled, OutputState::Enabled);
}

#[test]
fn sanitizing_twice_is_sanitizing_once() {
    let infos = vec![info("DP-1"), info("DP-2"), info("DP-3")];
    let mut configs = vec![config(OutputState::Enabled), mirror("DP-1"), mirror("DP-2")];
    sanitize_mirroring(&infos, &mut configs);
    let once = configs.clone();
    sanitize_mirroring(&infos, &mut configs);
    assert_eq!(configs, once);
    assert_eq!(configs[1].enabled, OutputState::Mirroring("DP-1".to_string()));
    assert_eq!(configs[2].enabled, OutputState::Enabled);
}

#[test]
fn loading_nothing_or_garbage_starts_empty() {
    let (config, remove) = load_outputs(OutputsSource::Absent);
    assert!(config.config.is_empty());
    assert!(!remove);
    let (config, remove) = load_outputs(OutputsSource::Unreadable);
    assert!(config.config.is_empty());
    assert!(remove);
}

#[test]
fn loading_sanitizes_every_set_in_place() {
    let parsed = OutputsConfig {
        config: vec![
            (vec![info("eDP-1")], vec![mirror("eDP-1")]),
            (vec![info("eDP-1"), info("DP-1")], vec![config(OutputState::Enabled), mirror("eDP-1")]),
            (vec![info("DP-3")], vec![config(OutputState::Disabled)]),
        ],
    };
    let (loaded, remove) = load_outputs(OutputsSource::Parsed(parsed));
    assert!(!remove);
    assert_eq!(loaded.config.len(), 3);
    assert_eq!(loaded.config[0].0, vec![info("eDP-1")]);
    assert_eq!(loaded.config[0].1[0].enabled, OutputState::Enabled);
    assert_eq!(loaded.config[1].1[1].enabled, OutputState::Mirroring("eDP-1".to_string()));
    assert_eq!(loaded.config[2].1[0].enabled, OutputState::Disabled);
}
