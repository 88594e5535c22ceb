//! The per-output configuration that is kept on disk.
use vstd::prelude::*;

verus! {

/// Whether an output shows anything, and what.
#[derive(Debug, PartialEq)]
pub enum OutputState {
    Enabled,
    Disabled,
    /// The output repeats the one on the named connector.
    Mirroring(String),
}

impl Clone for OutputState {
    fn clone(&self) -> (state: Self)
        ensures
            state == *self,
    {
        match self {
            OutputState::Enabled => OutputState::Enabled,
            OutputState::Disabled => OutputState::Disabled,
            OutputState::Mirroring(connector) => OutputState::Mirroring(connector.clone()),
        }
    }
}

/// The state of an output whose configuration does not name one.
pub fn default_state() -> (state: OutputState)
    ensures
        state == OutputState::Enabled,
{
    OutputState::Enabled
}

#[derive(Debug, Clone, Copy, PartialEq, Eq, Structural)]
pub enum AdaptiveSync {
    Enabled,
    Disabled,
    Force,
}

/// The adaptive sync of an output whose configuration does not name one.
pub fn default_sync() -> (sync: AdaptiveSync)
    ensures
        sync == AdaptiveSync::Enabled,
{
    AdaptiveSync::Enabled
}

/// The wide-gamut colorspace that is signalled to the panel.
#[derive(Debug, Clone, Copy, PartialEq, Eq, Structural)]
pub enum HdrColorspace {
    /// BT.2020, the broadest container.
    Bt2020,
    /// DCI-P3 with a D65 white point.
    DciP3,
}

impl Default for HdrColorspace {
    fn default() -> (colorspace: Self)
        ensures
            colorspace == HdrColorspace::Bt2020,
    {
        HdrColorspace::Bt2020
    }
}

#[derive(Debug, Clone, Copy, PartialEq, Eq, Structural)]
pub enum TransformDef {
    Normal,
    _90,
    _180,
    _270,
    Flipped,
    Flipped90,
    Flipped180,
    Flipped270,
}

/// The configurations of all known sets of outputs. Each entry holds the outputs
/// of a set and, in the same order, their configurations.
#[derive(Debug)]
pub struct OutputsConfig {
    pub config: Vec<(Vec<OutputInfo>, Vec<OutputConfig>)>,
}

/// The configuration of an output.
#[derive(Debug, PartialEq)]
pub struct OutputConfig {
    /// Size in pixels and refresh rate in millihertz.
    pub mode: ((i32, i32), Option<u32>),
    pub vrr: AdaptiveSync,
    /// The bits of the scale, a double-precision number.
    pub scale_bits: u64,
    pub transform: TransformDef,
    pub position: (u32, u32),
    pub enabled: OutputState,
    pub max_bpc: Option<u32>,
    pub xwayland_primary: bool,
    /// Whether the output runs in HDR mode, on connectors that support it.
    pub hdr_enabled: Option<bool>,
    /// The wide-gamut tag; BT.2020 where there is none.
    pub hdr_colorspace: Option<HdrColorspace>,
    /// The luminance of SDR white in cd/m².
    pub hdr_reference_white: Option<u32>,
    /// The strength of the gamut remap, in percent of the full remap.
    pub hdr_gamut_strength: Option<u8>,
    /// The saturation in percent; 100 is neutral.
    pub hdr_saturation: Option<u8>,
    /// The midtone gamma in percent; 100 is neutral, less lifts the midtones.
    pub hdr_midtone_gamma: Option<u8>,
    /// Whether a calibration pattern replaces the content.
    pub hdr_test_pattern: Option<bool>,
}

impl Clone for OutputConfig {
    fn clone(&self) -> (config: Self)
        ensures
            config == *self,
    {
        OutputConfig {
            mode: self.mode,
            vrr: self.vrr,
            scale_bits: self.scale_bits,
            transform: self.transform,
            position: self.position,
            enabled: self.enabled.clone(),
            max_bpc: self.max_bpc,
            xwayland_primary: self.xwayland_primary,
            hdr_enabled: self.hdr_enabled,
            hdr_colorspace: self.hdr_colorspace,
            hdr_reference_white: self.hdr_reference_white,
            hdr_gamut_strength: self.hdr_gamut_strength,
            hdr_saturation: self.hdr_saturation,
            hdr_midtone_gamma: self.hdr_midtone_gamma,
            hdr_test_pattern: self.hdr_test_pattern,
        }
    }
}

/// The bits of a scale of one.
pub const SCALE_ONE_BITS: u64 = 0x3FF0_0000_0000_0000;

/// The configuration of an output of which nothing is known.
pub open spec fn default_config() -> OutputConfig {
    OutputConfig {
        mode: ((0, 0), None),
        vrr: AdaptiveSync::Enabled,
        scale_bits: SCALE_ONE_BITS,
        transform: TransformDef::Normal,
        position: (0, 0),
        enabled: OutputState::Enabled,
        max_bpc: None,
        xwayland_primary: false,
        hdr_enabled: None,
        hdr_colorspace: None,
        hdr_reference_white: None,
        hdr_gamut_strength: None,
        hdr_saturation: None,
        hdr_midtone_gamma: None,
        hdr_test_pattern: None,
    }
}

impl Default for OutputConfig {
    fn default() -> (config: OutputConfig)
        ensures
            config == default_config(),
    {
        OutputConfig {
            mode: ((0, 0), None),
            vrr: AdaptiveSync::Enabled,
            scale_bits: SCALE_ONE_BITS,
            transform: TransformDef::Normal,
            position: (0, 0),
            enabled: OutputState::Enabled,
            max_bpc: None,
            xwayland_primary: false,
            hdr_enabled: None,
            hdr_colorspace: None,
            hdr_reference_white: None,
            hdr_gamut_strength: None,
            hdr_saturation: None,
            hdr_midtone_gamma: None,
            hdr_test_pattern: None,
        }
    }
}

/// What identifies an output.
#[derive(Debug, PartialEq, Eq, PartialOrd, Ord, Hash)]
pub struct OutputInfo {
    pub connector: String,
    pub make: String,
    pub model: String,
}

impl Clone for OutputInfo {
    fn clone(&self) -> (info: Self)
        ensures
            info == *self,
    {
        OutputInfo {
            connector: self.connector.clone(),
            make: self.make.clone(),
            model: self.model.clone(),
        }
    }
}

/// Two lists name the same outputs in the same order.
pub open spec fn same_outputs(a: Seq<OutputInfo>, b: Seq<OutputInfo>) -> bool {
    &&& a.len() == b.len()
    &&& forall|i: int|
        0 <= i < a.len() ==> (#[trigger] a[i]).connector@ == b[i].connector@ && a[i].make@
            == b[i].make@ && a[i].model@ == b[i].model@
}

impl OutputsConfig {
    /// No set of outputs occurs twice.
    pub open spec fn well_formed(&self) -> bool {
        forall|i: int, j: int|
            0 <= i < j < self.config@.len() ==> !same_outputs(
                (#[trigger] self.config@[i]).0@,
                (#[trigger] self.config@[j]).0@,
            )
    }
}

// ---------------------------------------------------------------------------
// Mirroring
// ---------------------------------------------------------------------------

/// The first output on the connector, from index `i` on.
pub open spec fn connector_from(info: Seq<OutputInfo>, connector: Seq<char>, i: int) -> Option<int>
    decreases info.len() - i,
{
    if i < 0 || i >= info.len() {
        None
    } else if info[i].connector@ == connector {
        Some(i)
    } else {
        connector_from(info, connector, i + 1)
    }
}

/// The output that a state mirrors: none for a state that does not mirror.
pub open spec fn mirrored(info: Seq<OutputInfo>, state: OutputState) -> Option<int> {
    match state {
        OutputState::Mirroring(connector) => connector_from(info, connector@, 0),
        _ => None,
    }
}

/// A configuration may mirror only an output of its set that is enabled.
pub open spec fn mirroring_is_valid(
    info: Seq<OutputInfo>,
    configs: Seq<OutputConfig>,
    state: OutputState,
) -> bool {
    state is Mirroring ==> (mirrored(info, state) matches Some(j) && configs[j].enabled
        == OutputState::Enabled)
}

/// A configuration with an invalid mirroring tag is enabled instead.
pub open spec fn sanitized_config(
    info: Seq<OutputInfo>,
    configs: Seq<OutputConfig>,
    config: OutputConfig,
) -> OutputConfig {
    if mirroring_is_valid(info, configs, config.enabled) {
        config
    } else {
        OutputConfig { enabled: OutputState::Enabled, ..config }
    }
}

/// The configurations of a set, with no invalid mirroring tag left.
pub open spec fn sanitized(info: Seq<OutputInfo>, configs: Seq<OutputConfig>) -> Seq<OutputConfig> {
    configs.map_values(|config: OutputConfig| sanitized_config(info, configs, config))
}

/// Every mirrored output of the set has a configuration.
pub open spec fn mirrors_in_range(info: Seq<OutputInfo>, configs: Seq<OutputConfig>) -> bool {
    forall|i: int|
        0 <= i < configs.len() ==> (mirrored(info, (#[trigger] configs[i]).enabled) matches Some(j)
            ==> j < configs.len())
}

fn find_connector(info: &Vec<OutputInfo>, connector: &String) -> (found: Option<usize>)
    ensures
        match found {
            Some(j) => connector_from(info@, connector@, 0) == Some(j as int) && j < info@.len(),
            None => connector_from(info@, connector@, 0) is None,
        },
{
    let mut j: usize = 0;
    while j < info.len()
        invariant
            j <= info@.len(),
            connector_from(info@, connector@, 0) == connector_from(info@, connector@, j as int),
        decreases info@.len() - j,
    {
        if info[j].connector == *connector {
            return Some(j);
        }
        j += 1;
    }
    None
}

fn is_enabled(state: &OutputState) -> (yes: bool)
    ensures
        yes == (*state == OutputState::Enabled),
{
    match state {
        OutputState::Enabled => true,
        _ => false,
    }
}

/// Replaces the invalid mirroring tags of a set of outputs.
pub fn sanitize_mirroring(info: &Vec<OutputInfo>, configs: &mut Vec<OutputConfig>)
    requires
        mirrors_in_range(info@, old(configs)@),
    ensures
        final(configs)@ == sanitized(info@, old(configs)@),
{
    let ghost before = configs@;
    let mut enabled: Vec<bool> = Vec::new();
    let mut i: usize = 0;
    while i < configs.len()
        invariant
            i <= configs@.len(),
            configs@ == before,
            enabled@.len() == i,
            forall|k: int|
                0 <= k < i ==> #[trigger] enabled@[k] == (before[k].enabled
                    == OutputState::Enabled),
        decreases configs@.len() - i,
    {
        enabled.push(is_enabled(&configs[i].enabled));
        i += 1;
    }
    i = 0;
    while i < configs.len()
        invariant
            i <= configs@.len(),
            configs@.len() == before.len(),
            mirrors_in_range(info@, before),
            enabled@.len() == before.len(),
            forall|k: int|
                0 <= k < before.len() ==> #[trigger] enabled@[k] == (before[k].enabled
                    == OutputState::Enabled),
            forall|k: int|
                0 <= k < i ==> #[trigger] configs@[k] == sanitized_config(info@, before, before[k]),
            forall|k: int| i <= k < before.len() ==> #[trigger] configs@[k] == before[k],
        decreases configs@.len() - i,
    {
        let valid: bool = match &configs[i].enabled {
            OutputState::Mirroring(connector) => match find_connector(info, connector) {
                Some(j) => {
                    assert(mirrored(info@, before[i as int].enabled) == Some(j as int));
                    enabled[j]
                },
                None => false,
            },
            _ => true,
        };
        assert(valid == mirroring_is_valid(info@, before, before[i as int].enabled));
        if !valid {
            configs[i].enabled = OutputState::Enabled;
        }
        i += 1;
    }
    assert(configs@ =~= sanitized(info@, before));
}

/// What was found where the configuration is kept.
pub enum OutputsSource {
    /// There is no place for it, or nothing is there.
    Absent,
    /// A file is there that holds no configuration.
    Unreadable,
    Parsed(OutputsConfig),
}

/// Every mirrored output of every set has a configuration.
pub open spec fn source_in_range(source: OutputsSource) -> bool {
    source matches OutputsSource::Parsed(parsed) ==> forall|i: int|
        0 <= i < parsed.config@.len() ==> mirrors_in_range(
            (#[trigger] parsed.config@[i]).0@,
            parsed.config@[i].1@,
        )
}

/// The configurations to start with, and whether the file that they were read
/// from is to be removed. A file without a configuration is; the configurations
/// then start empty.
pub fn load_outputs(source: OutputsSource) -> (loaded: (OutputsConfig, bool))
    requires
        source_in_range(source),
    ensures
        loaded.1 == (source is Unreadable),
        source !is Parsed ==> loaded.0.config@.len() == 0,
        (source matches OutputsSource::Parsed(parsed) ==> parsed.well_formed())
            ==> loaded.0.well_formed(),
        source matches OutputsSource::Parsed(parsed) ==> {
            &&& loaded.0.config@.len() == parsed.config@.len()
            &&& forall|i: int|
                0 <= i < parsed.config@.len() ==> {
                    &&& (#[trigger] loaded.0.config@[i]).0@ == parsed.config@[i].0@
                    &&& loaded.0.config@[i].1@ == sanitized(
                        parsed.config@[i].0@,
                        parsed.config@[i].1@,
                    )
                }
        },
{
    match source {
        OutputsSource::Absent => (OutputsConfig { config: Vec::new() }, false),
        OutputsSource::Unreadable => (OutputsConfig { config: Vec::new() }, true),
        OutputsSource::Parsed(parsed) => {
            let mut rest: Vec<(Vec<OutputInfo>, Vec<OutputConfig>)> = parsed.config;
            let ghost all = rest@;
            let mut reversed: Vec<(Vec<OutputInfo>, Vec<OutputConfig>)> = Vec::new();
            while rest.len() > 0
                invariant
                    rest@.len() + reversed@.len() == all.len(),
                    rest@ == all.take(rest@.len() as int),
                    forall|i: int|
                        0 <= i < all.len() ==> mirrors_in_range(
                            (#[trigger] all[i]).0@,
                            all[i].1@,
                        ),
                    forall|i: int|
                        0 <= i < reversed@.len() ==> {
                            &&& (#[trigger] reversed@[i]).0@ == all[all.len() - 1 - i].0@
                            &&& reversed@[i].1@ == sanitized(
                                all[all.len() - 1 - i].0@,
                                all[all.len() - 1 - i].1@,
                            )
                        },
                decreases rest@.len(),
            {
                let ghost last = rest@.len() - 1;
                assert(rest@[last] == all[last]);
                match rest.pop() {
                    Some((info, configs)) => {
                        let mut configs = configs;
                        sanitize_mirroring(&info, &mut configs);
                        reversed.push((info, configs));
                        assert(rest@ =~= all.take(rest@.len() as int));
                    },
                    None => {},
                }
            }
            let mut config: Vec<(Vec<OutputInfo>, Vec<OutputConfig>)> = Vec::new();
            let ghost done = reversed@;
            while reversed.len() > 0
                invariant
                    done.len() == all.len(),
                    config@.len() + reversed@.len() == done.len(),
                    reversed@ == done.take(reversed@.len() as int),
                    forall|i: int|
                        0 <= i < config@.len() ==> #[trigger] config@[i] == done[done.len() - 1
                            - i],
                decreases reversed@.len(),
            {
                match reversed.pop() {
                    Some(entry) => {
                        config.push(entry);
                        assert(reversed@ =~= done.take(reversed@.len() as int));
                    },
                    None => {},
                }
            }
            proof {
                assert forall|i: int| 0 <= i < all.len() implies {
                    &&& (#[trigger] config@[i]).0@ == all[i].0@
                    &&& config@[i].1@ == sanitized(all[i].0@, all[i].1@)
                } by {
                    assert(config@[i] == done[done.len() - 1 - i]);
                }
            }
            (OutputsConfig { config }, false)
        },
    }
}

/// Once the tags are sanitized, whatever an output mirrors is itself enabled:
/// nothing mirrors a mirror, itself or a disabled output.
pub proof fn lemma_sanitized_mirrors_are_enabled(
    info: Seq<OutputInfo>,
    configs: Seq<OutputConfig>,
    i: int,
)
    requires
        mirrors_in_range(info, configs),
        0 <= i < configs.len(),
        sanitized(info, configs)[i].enabled is Mirroring,
    ensures
        mirrored(info, sanitized(info, configs)[i].enabled) matches Some(j) && 0 <= j
            < configs.len() && sanitized(info, configs)[j].enabled == OutputState::Enabled,
{
    assert(sanitized(info, configs)[i] == sanitized_config(info, configs, configs[i]));
    let j = mirrored(info, configs[i].enabled)->0;
    lemma_connector_from_bounds(info, configs[i].enabled->Mirroring_0@, 0);
    assert(sanitized(info, configs)[j] == sanitized_config(info, configs, configs[j]));
}

proof fn lemma_connector_from_bounds(info: Seq<OutputInfo>, connector: Seq<char>, i: int)
    requires
        0 <= i,
    ensures
        connector_from(info, connector, i) matches Some(j) ==> i <= j < info.len(),
    decreases info.len() - i,
{
    if i < info.len() {
        lemma_connector_from_bounds(info, connector, i + 1);
    }
}

/// Sanitizing twice changes nothing more.
pub proof fn lemma_sanitizing_is_idempotent(info: Seq<OutputInfo>, configs: Seq<OutputConfig>)
    requires
        mirrors_in_range(info, configs),
    ensures
        sanitized(info, sanitized(info, configs)) == sanitized(info, configs),
{
    let once = sanitized(info, configs);
    assert forall|i: int| 0 <= i < configs.len() implies sanitized(info, once)[i] == once[i] by {
        assert(sanitized(info, once)[i] == sanitized_config(info, once, once[i]));
        if once[i].enabled is Mirroring {
            lemma_sanitized_mirrors_are_enabled(info, configs, i);
        }
    }
    assert(sanitized(info, once) =~= once);
}

/// The output on a connector is the first one that names it.
pub proof fn lemma_first_on_connector(info: Seq<OutputInfo>, connector: Seq<char>, i: int)
    requires
        0 <= i,
    ensures
        match connector_from(info, connector, i) {
            Some(j) => {
                &&& i <= j < info.len()
                &&& info[j].connector@ == connector
                &&& forall|k: int| i <= k < j ==> (#[trigger] info[k]).connector@ != connector
            },
            None => forall|k: int|
                i <= k < info.len() ==> (#[trigger] info[k]).connector@ != connector,
        },
    decreases info.len() - i,
{
    if i < info.len() {
        lemma_first_on_connector(info, connector, i + 1);
    }
}

/// Sanitizing changes nothing but the state of an output, and that only from mirroring to
/// enabled: exactly where the connector is in no entry of the set or the output on it is
/// not enabled itself.
pub proof fn lemma_sanitizing_enables_broken_mirrors(
    info: Seq<OutputInfo>,
    configs: Seq<OutputConfig>,
    i: int,
)
    requires
        0 <= i < configs.len(),
    ensures
        sanitized(info, configs).len() == configs.len(),
        ({
            let (before, after) = (configs[i], sanitized(info, configs)[i]);
            &&& after == (OutputConfig { enabled: after.enabled, ..before })
            &&& after.enabled == before.enabled || after.enabled == OutputState::Enabled
            &&& !(before.enabled is Mirroring) ==> after == before
            &&& before.enabled matches OutputState::Mirroring(connector) ==> (
            after.enabled is Mirroring <==> exists|j: int|
                {
                    &&& 0 <= j < info.len()
                    &&& (#[trigger] info[j]).connector@ == connector@
                    &&& configs[j].enabled == OutputState::Enabled
                    &&& forall|k: int|
                        0 <= k < j ==> (#[trigger] info[k]).connector@ != connector@
                })
        }),
{
    if let OutputState::Mirroring(connector) = configs[i].enabled {
        lemma_first_on_connector(info, connector@, 0);
        if let Some(j) = connector_from(info, connector@, 0) {
            assert(info[j].connector@ == connector@);
        }
    }
}

/// A disabled output stays disabled, and an enabled one enabled.
pub proof fn lemma_sanitizing_keeps_the_rest(info: Seq<OutputInfo>, configs: Seq<OutputConfig>)
    ensures
        forall|i: int|
            0 <= i < configs.len() && !(configs[i].enabled is Mirroring)
                ==> #[trigger] sanitized(info, configs)[i] == configs[i],
        (forall|i: int|
            0 <= i < configs.len() ==> !((#[trigger] configs[i]).enabled is Mirroring))
            ==> sanitized(info, configs) == configs,
{
    if forall|i: int| 0 <= i < configs.len() ==> !((#[trigger] configs[i]).enabled is Mirroring) {
        assert(sanitized(info, configs) =~= configs);
    }
}

/// An output of which nothing is known is enabled, upright and unscaled, at the origin, with
/// adaptive sync where it is wanted, and nothing is said of HDR.
pub proof fn lemma_unknown_outputs()
    ensures
        ({
            let config = default_config();
            &&& config.enabled == OutputState::Enabled
            &&& config.transform == TransformDef::Normal
            &&& config.scale_bits == 0x3FF0_0000_0000_0000
            &&& config.position.0 == 0 && config.position.1 == 0
            &&& config.mode.0.0 == 0 && config.mode.0.1 == 0 && config.mode.1 is None
            &&& config.vrr == AdaptiveSync::Enabled
            &&& config.max_bpc is None && !config.xwayland_primary
            &&& config.hdr_enabled is None && config.hdr_colorspace is None
            &&& config.hdr_reference_white is None && config.hdr_gamut_strength is None
            &&& config.hdr_saturation is None && config.hdr_midtone_gamma is None
            &&& config.hdr_test_pattern is None
        }),
{
}

/// Whether two sets are the same is decided by the connector, make and model of each
/// output: a set is the same as itself, and one difference tells two sets apart.
pub proof fn lemma_sets_of_outputs(a: Seq<OutputInfo>, b: Seq<OutputInfo>, i: int)
    requires
        0 <= i < a.len(),
        0 <= i < b.len(),
    ensures
        same_outputs(a, a),
        same_outputs(a, b) <==> same_outputs(b, a),
        a[i].connector@ != b[i].connector@ || a[i].make@ != b[i].make@ || a[i].model@
            != b[i].model@ ==> !same_outputs(a, b),
        a.len() != b.len() ==> !same_outputs(a, b),
{
    if same_outputs(a, b) {
        assert(a[i].connector@ == b[i].connector@);
        assert forall|k: int| 0 <= k < b.len() implies (#[trigger] b[k]).connector@
            == a[k].connector@ && b[k].make@ == a[k].make@ && b[k].model@ == a[k].model@ by {
            assert(a[k].connector@ == b[k].connector@);
        }
    }
    if same_outputs(b, a) {
        assert forall|k: int| 0 <= k < a.len() implies (#[trigger] a[k]).connector@
            == b[k].connector@ && a[k].make@ == b[k].make@ && a[k].model@ == b[k].model@ by {
            assert(b[k].connector@ == a[k].connector@);
        }
    }
}

/// Where each output of a set has its configuration, every mirroring tag can be looked up.
pub proof fn lemma_complete_sets_are_in_range(info: Seq<OutputInfo>, configs: Seq<OutputConfig>)
    requires
        info.len() <= configs.len(),
    ensures
        mirrors_in_range(info, configs),
{
    assert forall|i: int| 0 <= i < configs.len() implies (mirrored(
        info,
        (#[trigger] configs[i]).enabled,
    ) matches Some(j) ==> j < configs.len()) by {
        if let OutputState::Mirroring(connector) = configs[i].enabled {
            lemma_connector_from_bounds(info, connector@, 0);
        }
    }
}

} // verus!
