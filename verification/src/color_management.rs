//! Image descriptions that tell clients what an output can show.
use vstd::prelude::*;

use crate::output_config::{HdrColorspace, OutputConfig};

verus! {

/// The peak luminance of the panel, in cd/m².
pub const PANEL_PEAK_NITS: u32 = 525;

/// The least luminance of the panel, in units of 0.0001 cd/m².
pub const PANEL_MIN_LUM_X10000: u32 = 5;

/// The SDR reference white of an output whose configuration has none.
pub const DEFAULT_REFERENCE_WHITE_NITS: u32 = 203;

/// Primaries that have a name in the protocol, as far as they are told apart.
#[derive(Debug, Clone, Copy, PartialEq, Eq, Structural)]
pub enum NamedPrimaries {
    Srgb,
    Bt2020,
    DciP3,
    DisplayP3,
    Other,
}

#[derive(Debug, Clone, Copy, PartialEq, Eq, Structural)]
pub enum PrimariesDef {
    Named(NamedPrimaries),
    /// Given by chromaticities.
    Custom,
}

/// Transfer functions that have a name in the protocol, as far as they are told
/// apart.
#[derive(Debug, Clone, Copy, PartialEq, Eq, Structural)]
pub enum NamedTransferFunction {
    Srgb,
    Bt1886,
    Gamma22,
    St2084Pq,
    Hlg,
    ExtLinear,
    Other,
}

#[derive(Debug, Clone, Copy, PartialEq, Eq, Structural)]
pub enum TransferFunctionDef {
    Named(NamedTransferFunction),
    /// A power curve, given by its exponent.
    Power,
}

#[derive(Debug, Clone, Copy, PartialEq, Eq, Structural)]
pub struct Luminances {
    /// In units of 0.0001 cd/m².
    pub min_lum: u32,
    pub max_lum: u32,
    pub reference_lum: u32,
}

#[derive(Debug, Clone, Copy, PartialEq, Eq, Structural)]
pub struct MasteringLuminance {
    /// In units of 0.0001 cd/m².
    pub min_lum: u32,
    pub max_lum: u32,
}

/// What a client or an output says of its colors.
#[derive(Debug, Clone, Copy, PartialEq, Eq, Structural)]
pub struct ImageDescription {
    pub primaries: Option<PrimariesDef>,
    pub transfer_function: Option<TransferFunctionDef>,
    pub luminances: Option<Luminances>,
    pub mastering_luminance: Option<MasteringLuminance>,
    pub max_cll: Option<u32>,
    pub max_fall: Option<u32>,
    pub windows_scrgb: bool,
}

/// The description of an output.
#[derive(Debug, Clone, Copy, PartialEq, Eq, Structural)]
pub enum OutputDescription {
    /// The predefined sRGB description.
    SrgbDefault,
    Synthesized(ImageDescription),
}

/// The reference white that a configuration asks for.
pub open spec fn reference_white(config: OutputConfig) -> u32 {
    match config.hdr_reference_white {
        Some(nits) => nits,
        None => DEFAULT_REFERENCE_WHITE_NITS,
    }
}

/// The frame average of SDR content in an HDR output: two fifths of the peak.
pub open spec fn frame_average(nits: int) -> int {
    (if 2 * nits <= u32::MAX {
        2 * nits
    } else {
        u32::MAX as int
    }) / 5
}

/// The description that a configuration stands for. Content peaks at the
/// reference white; the panel's own range is the mastering luminance.
pub open spec fn description_of(config: OutputConfig) -> OutputDescription {
    if config.hdr_enabled != Some(true) {
        OutputDescription::SrgbDefault
    } else {
        OutputDescription::Synthesized(
            ImageDescription {
                primaries: Some(
                    PrimariesDef::Named(
                        if config.hdr_colorspace == Some(HdrColorspace::DciP3) {
                            NamedPrimaries::DciP3
                        } else {
                            NamedPrimaries::Bt2020
                        },
                    ),
                ),
                transfer_function: Some(
                    TransferFunctionDef::Named(NamedTransferFunction::St2084Pq),
                ),
                luminances: Some(
                    Luminances {
                        min_lum: PANEL_MIN_LUM_X10000,
                        max_lum: PANEL_PEAK_NITS,
                        reference_lum: reference_white(config),
                    },
                ),
                mastering_luminance: Some(
                    MasteringLuminance {
                        min_lum: PANEL_MIN_LUM_X10000,
                        max_lum: PANEL_PEAK_NITS,
                    },
                ),
                max_cll: Some(reference_white(config)),
                max_fall: Some(frame_average(reference_white(config) as int) as u32),
                windows_scrgb: false,
            },
        )
    }
}

/// The description of an output with the given configuration.
pub fn synthesize_output_description(config: &OutputConfig) -> (description: OutputDescription)
    ensures
        description == description_of(*config),
{
    let hdr_on: bool = match config.hdr_enabled {
        Some(on) => on,
        None => false,
    };
    if !hdr_on {
        return OutputDescription::SrgbDefault;
    }
    let colorspace: HdrColorspace = match config.hdr_colorspace {
        Some(colorspace) => colorspace,
        None => HdrColorspace::default(),
    };
    let primaries: NamedPrimaries = match colorspace {
        HdrColorspace::Bt2020 => NamedPrimaries::Bt2020,
        HdrColorspace::DciP3 => NamedPrimaries::DciP3,
    };
    let white: u32 = match config.hdr_reference_white {
        Some(nits) => nits,
        None => DEFAULT_REFERENCE_WHITE_NITS,
    };
    let doubled: u32 = if white <= u32::MAX / 2 {
        2 * white
    } else {
        u32::MAX
    };
    OutputDescription::Synthesized(
        ImageDescription {
            primaries: Some(PrimariesDef::Named(primaries)),
            transfer_function: Some(TransferFunctionDef::Named(NamedTransferFunction::St2084Pq)),
            luminances: Some(
                Luminances {
                    min_lum: PANEL_MIN_LUM_X10000,
                    max_lum: PANEL_PEAK_NITS,
                    reference_lum: white,
                },
            ),
            mastering_luminance: Some(
                MasteringLuminance { min_lum: PANEL_MIN_LUM_X10000, max_lum: PANEL_PEAK_NITS },
            ),
            max_cll: Some(white),
            max_fall: Some(doubled / 5),
            windows_scrgb: false,
        },
    )
}

/// An output as a client's request names it.
pub enum DescribedOutput {
    /// No output, or one that is not known.
    Unknown,
    /// An output to which no configuration is attached yet.
    Unconfigured,
    Configured(OutputConfig),
}

/// The description for a request about an output, or about the output that a
/// surface is mainly shown on.
pub fn output_image_description(output: &DescribedOutput) -> (description: OutputDescription)
    ensures
        description == match *output {
            DescribedOutput::Configured(config) => description_of(config),
            _ => OutputDescription::SrgbDefault,
        },
{
    match output {
        DescribedOutput::Unknown => OutputDescription::SrgbDefault,
        DescribedOutput::Unconfigured => {
            let config: OutputConfig = OutputConfig::default();
            synthesize_output_description(&config)
        },
        DescribedOutput::Configured(config) => synthesize_output_description(config),
    }
}

/// An output is described as sRGB exactly if its configuration does not switch HDR on.
pub proof fn lemma_srgb_without_hdr(config: OutputConfig)
    ensures
        description_of(config) is SrgbDefault <==> config.hdr_enabled != Some(true),
        config.hdr_enabled is None ==> description_of(config) is SrgbDefault,
        config.hdr_enabled == Some(false) ==> description_of(config) is SrgbDefault,
{
}

/// What an HDR output is said to show: PQ in the container that is configured, with the
/// range of the panel, a content peak at the reference white, and a frame average of two
/// fifths of it.
pub proof fn lemma_hdr_outputs_describe_their_panel(config: OutputConfig)
    requires
        config.hdr_enabled == Some(true),
    ensures
        ({
            let white = match config.hdr_reference_white {
                Some(nits) => nits,
                None => 203,
            };
            &&& description_of(config) matches OutputDescription::Synthesized(image)
            &&& image.transfer_function == Some(
                TransferFunctionDef::Named(NamedTransferFunction::St2084Pq),
            )
            &&& config.hdr_colorspace == Some(HdrColorspace::DciP3) ==> image.primaries == Some(
                PrimariesDef::Named(NamedPrimaries::DciP3),
            )
            &&& config.hdr_colorspace != Some(HdrColorspace::DciP3) ==> image.primaries == Some(
                PrimariesDef::Named(NamedPrimaries::Bt2020),
            )
            &&& image.luminances == Some(
                Luminances { min_lum: 5, max_lum: 525, reference_lum: white },
            )
            &&& image.mastering_luminance == Some(MasteringLuminance { min_lum: 5, max_lum: 525 })
            &&& image.max_cll == Some(white)
            &&& !image.windows_scrgb
            &&& image.max_fall matches Some(average) && (2 * white <= u32::MAX ==> 5 * average <= 2
                * white < 5 * average + 5) && (2 * white > u32::MAX ==> average == 858993459)
        }),
{
}

/// Two HDR outputs are described alike exactly if they share the reference white and the
/// container; nothing else that is configured counts.
pub proof fn lemma_descriptions_tell_outputs_apart(a: OutputConfig, b: OutputConfig)
    requires
        a.hdr_enabled == Some(true),
        b.hdr_enabled == Some(true),
    ensures
        description_of(a) == description_of(b) <==> reference_white(a) == reference_white(b) && (
        a.hdr_colorspace == Some(HdrColorspace::DciP3)) == (b.hdr_colorspace == Some(
            HdrColorspace::DciP3,
        )),
        a.hdr_reference_white == b.hdr_reference_white && a.hdr_colorspace == b.hdr_colorspace
            ==> description_of(a) == description_of(b),
        a.hdr_reference_white matches Some(nits) ==> reference_white(a) == nits,
{
    let (p, q) = (description_of(a)->Synthesized_0, description_of(b)->Synthesized_0);
    if description_of(a) == description_of(b) {
        assert(p.max_cll == q.max_cll);
        assert(p.primaries == q.primaries);
    }
}

} // verus!
