use cosmic_comp::color_management::{
    output_image_description, synthesize_output_description, DescribedOutput, ImageDescription,
    Luminances, MasteringLuminance, NamedPrimaries, NamedTransferFunction, OutputDescription,
    PrimariesDef, TransferFunctionDef,
};
use cosmic_comp::output_config::{HdrColorspace, OutputConfig};

fn hdr() -> OutputConfig {
    OutputConfig { hdr_enabled: Some(true), ..OutputConfig::default() }
}

fn synthesized(config: &OutputConfig) -> ImageDescription {
    match synthesize_output_description(config) {
        OutputDescription::Synthesized(description) => description,
        OutputDescription::SrgbDefault => panic!("sRGB"),
    }
}

#[test]
fn sdr_outputs_are_srgb() {
    for hdr_enabled in [None, Some(false)] {
        let config = OutputConfig { hdr_enabled, ..OutputConfig::default() };
        assert_eq!(synthesize_output_description(&config), OutputDescription::SrgbDefault);
    }
}

#[test]
fn hdr_output_with_defaults() {
    assert_eq!(
        synthesized(&hdr()),
        ImageDescription {
            primaries: Some(PrimariesDef::Named(NamedPrimaries::Bt2020)),
            transfer_function: Some(TransferFunctionDef::Named(NamedTransferFunction::St2084Pq)),
            luminances: Some(Luminances { min_lum: 5, max_lum: 525, reference_lum: 203 }),
            mastering_luminance: Some(MasteringLuminance { min_lum: 5, max_lum: 525 }),
            max_cll: Some(203),
            max_fall: Some(81),
            windows_scrgb: false,
        }
    );
}

#[test]
fn hdr_output_with_settings() {
    let config = OutputConfig {
        hdr_colorspace: Some(HdrColorspace::DciP3),
        hdr_reference_white: Some(300),
        ..hdr()
    };
    let description = synthesized(&config);
    assert_eq!(description.primaries, Some(PrimariesDef::Named(NamedPrimaries::DciP3)));
    assert_eq!(description.max_cll, Some(300));
    assert_eq!(description.max_fall, Some(120));
}

#[test]
fn frame_average_saturates() {
    let config = OutputConfig { hdr_reference_white: Some(u32::MAX), ..hdr() };
    assert_eq!(synthesized(&config).max_fall, Some(u32::MAX.saturating_mul(2) / 5));
    let config = OutputConfig { hdr_reference_white: Some(0x8000_0000), ..hdr() };
    assert_eq!(synthesized(&config).max_fall, Some(0x8000_0000u32.saturating_mul(2) / 5));
}

#[test]
fn requests_without_an_output_get_srgb() {
    assert_eq!(output_image_description(&DescribedOutput::Unknown), OutputDescription::SrgbDefault);
    assert_eq!(
        output_image_description(&DescribedOutput::Unconfigured),
        OutputDescription::SrgbDefault
    );
    assert_eq!(
        output_image_description(&DescribedOutput::Configured(hdr())),
        synthesize_output_description(&hdr())
    );
}
