use cosmic_comp::drm_helpers::{
    build_hdr_metadata_blob, calculate_refresh_rate, color_lut_bytes, colorspace_enum_value,
    connector_supports_hdr, crtc_degamma_lut_size, crtc_gamma_lut_size, crtc_has_color_pipeline,
    ctm_bytes, edid_blob, get_crtc_range_prop, get_max_bpc, get_minimum_refresh_rate, get_prop,
    get_property_val, interface_name, max_bpc_in_effect, panel_orientation,
    set_broadcast_rgb_full, set_colorspace_legacy, set_max_bpc, DisplayDescriptor, EnumVariant,
    HdrColorContainer, HdrMasteringLuminance, Interface, Mode, ObjectProps, PropEntry, PropError,
    PropInfo, ValueType,
};
use cosmic_comp::hw_color_pipeline::DrmColorLutEntry;
use cosmic_comp::output_config::TransformDef;

fn entry(handle: u32, name: &str, value: u64, value_type: ValueType) -> PropEntry {
    PropEntry {
        handle,
        value,
        info: Some(PropInfo { name: Some(name.to_string()), value_type }),
    }
}

fn unreadable(handle: u32) -> PropEntry {
    PropEntry { handle, value: 0, info: None }
}

fn props(entries: Vec<PropEntry>) -> ObjectProps {
    ObjectProps { entries: Some(entries) }
}

fn variants(names: &[(&str, u64)]) -> ValueType {
    ValueType::Enum {
        variants: names
            .iter()
            .map(|(name, value)| EnumVariant { name: Some(name.to_string()), value: *value })
            .collect(),
        current: None,
    }
}

fn current(value: Option<u64>) -> ValueType {
    ValueType::Enum { variants: vec![], current: value }
}

#[test]
fn properties_are_found_by_name() {
    let object = props(vec![
        entry(3, "CRTC_ID", 40, ValueType::Other),
        entry(4, "FB_ID", 50, ValueType::Blob),
        entry(5, "FB_ID", 60, ValueType::Other),
    ]);
    assert_eq!(get_prop(&object, "FB_ID"), Ok(4));
    assert_eq!(get_prop(&object, "ACTIVE"), Err(PropError::Missing));
    let (value_type, value) = get_property_val(&object, "FB_ID").unwrap();
    assert!(matches!(value_type, ValueType::Blob));
    assert_eq!(value, 50);
    assert_eq!(get_property_val(&object, "X").unwrap_err(), PropError::Missing);
}

#[test]
fn unreadable_properties_end_the_search() {
    let object = props(vec![
        entry(3, "A", 1, ValueType::Other),
        unreadable(4),
        entry(5, "B", 2, ValueType::Other),
    ]);
    assert_eq!(get_prop(&object, "A"), Ok(3));
    assert_eq!(get_prop(&object, "B"), Err(PropError::Query));
    assert_eq!(get_crtc_range_prop(&object, "B"), None);
    let none = ObjectProps { entries: None };
    assert_eq!(get_prop(&none, "A"), Err(PropError::Query));
}

#[test]
fn names_that_are_not_text_are_passed_over() {
    let object = props(vec![
        PropEntry {
            handle: 1,
            value: 9,
            info: Some(PropInfo { name: None, value_type: ValueType::Other }),
        },
        entry(2, "A", 8, ValueType::Other),
    ]);
    assert_eq!(get_prop(&object, "A"), Ok(2));
}

#[test]
fn broadcast_rgb_goes_to_full() {
    let modes = [("Automatic", 0), ("Full", 1), ("Limited 16:235", 2)];
    let object = props(vec![entry(7, "Broadcast RGB", 0, variants(&modes))]);
    assert_eq!(set_broadcast_rgb_full(&object), Ok(Some((7, 1))));
    assert_eq!(set_broadcast_rgb_full(&props(vec![])), Ok(None));
    assert_eq!(set_broadcast_rgb_full(&ObjectProps { entries: None }), Ok(None));
    let object = props(vec![entry(7, "Broadcast RGB", 0, variants(&[("Automatic", 0)]))]);
    assert_eq!(set_broadcast_rgb_full(&object), Ok(None));
    let object = props(vec![entry(7, "Broadcast RGB", 0, ValueType::Blob)]);
    assert_eq!(set_broadcast_rgb_full(&object), Ok(None));
}

#[test]
fn colorspaces_are_found_by_name() {
    let spaces = [("Default", 0), ("BT2020_RGB", 9), ("DCI-P3_RGB_D65", 11)];
    let object = props(vec![entry(8, "Colorspace", 0, variants(&spaces))]);
    let bt2020 = HdrColorContainer::Bt2020.colorspace_variant();
    let p3 = HdrColorContainer::DciP3.colorspace_variant();
    assert_eq!(colorspace_enum_value(&object, bt2020), Ok(9));
    assert_eq!(colorspace_enum_value(&object, p3), Ok(11));
    assert_eq!(colorspace_enum_value(&object, "opRGB"), Err(PropError::NoVariant));
    assert_eq!(colorspace_enum_value(&props(vec![]), bt2020), Err(PropError::Missing));
    assert_eq!(set_colorspace_legacy(&object, p3), Ok(Some((8, 11))));
    assert_eq!(set_colorspace_legacy(&props(vec![]), p3), Ok(None));
    assert_eq!(set_colorspace_legacy(&object, "opRGB"), Err(PropError::NoVariant));
}

#[test]
fn hdr_support_needs_metadata_and_a_wide_gamut() {
    let metadata = || entry(1, "HDR_OUTPUT_METADATA", 0, ValueType::Blob);
    let space = |name| entry(2, "Colorspace", 0, variants(&[("Default", 0), (name, 9)]));
    assert!(connector_supports_hdr(&props(vec![metadata(), space("BT2020_RGB")])));
    assert!(connector_supports_hdr(&props(vec![metadata(), space("DCI-P3_RGB_D65")])));
    assert!(!connector_supports_hdr(&props(vec![metadata(), space("opRGB")])));
    assert!(!connector_supports_hdr(&props(vec![space("BT2020_RGB")])));
    assert!(!connector_supports_hdr(&props(vec![metadata()])));
}

#[test]
fn panel_orientations() {
    let at = |value| panel_orientation(&props(vec![entry(1, "panel orientation", 0, current(value))]));
    assert_eq!(at(Some(0)), Ok(TransformDef::Normal));
    assert_eq!(at(Some(1)), Ok(TransformDef::_180));
    assert_eq!(at(Some(2)), Ok(TransformDef::_90));
    assert_eq!(at(Some(3)), Ok(TransformDef::_270));
    assert_eq!(at(Some(4)), Err(PropError::InvalidValue(4)));
    assert_eq!(at(None), Err(PropError::WrongType));
    assert_eq!(panel_orientation(&props(vec![])), Err(PropError::Missing));
    let wrong = props(vec![entry(1, "panel orientation", 0, ValueType::Other)]);
    assert_eq!(panel_orientation(&wrong), Err(PropError::WrongType));
}

#[test]
fn color_depth_is_clamped_to_its_range() {
    let object = props(vec![entry(6, "max bpc", 8, ValueType::UnsignedRange(6, 12))]);
    assert_eq!(get_max_bpc(&object), Ok(Some((8, (6, 12)))));
    assert_eq!(set_max_bpc(&object, 10), Ok((6, 10)));
    assert_eq!(set_max_bpc(&object, 16), Ok((6, 12)));
    assert_eq!(set_max_bpc(&object, 1), Ok((6, 6)));
    assert_eq!(max_bpc_in_effect(&object), Ok(8));
    assert_eq!(get_max_bpc(&props(vec![])), Ok(None));
    assert_eq!(set_max_bpc(&props(vec![]), 10), Err(PropError::Missing));
    assert_eq!(max_bpc_in_effect(&props(vec![])), Err(PropError::Missing));
    let wrong = props(vec![entry(6, "max bpc", 8, ValueType::Blob)]);
    assert_eq!(get_max_bpc(&wrong), Err(PropError::WrongType));
    assert_eq!(set_max_bpc(&wrong, 10), Err(PropError::WrongType));
    assert_eq!(max_bpc_in_effect(&wrong), Err(PropError::WrongType));
}

#[test]
fn edid_blobs() {
    let object = props(vec![entry(1, "DPMS", 0, ValueType::Other), entry(2, "EDID", 77, ValueType::Blob)]);
    assert_eq!(edid_blob(&object), Ok(77));
    let wrong = props(vec![entry(2, "EDID", 77, ValueType::Other)]);
    assert_eq!(edid_blob(&wrong), Err(PropError::NoEdid));
    assert_eq!(edid_blob(&props(vec![])), Err(PropError::Missing));
    assert_eq!(edid_blob(&props(vec![unreadable(1)])), Err(PropError::Query));
}

#[test]
fn minimum_refresh_rates() {
    let other = DisplayDescriptor::Other;
    assert_eq!(get_minimum_refresh_rate(&vec![]), Ok(None));
    assert_eq!(get_minimum_refresh_rate(&vec![other, other]), Ok(None));
    let rate = DisplayDescriptor::RangeLimits(Some(48));
    let later = DisplayDescriptor::RangeLimits(Some(30));
    assert_eq!(get_minimum_refresh_rate(&vec![other, rate, later]), Ok(Some(48)));
    let broken = DisplayDescriptor::RangeLimits(None);
    assert_eq!(
        get_minimum_refresh_rate(&vec![other, broken, rate]),
        Err(PropError::InvalidRangeLimits)
    );
}

#[test]
fn refresh_rates() {
    // 1920x1080 at 60 Hz: 148.5 MHz over 2200 x 1125
    let mode = Mode {
        clock: 148500,
        htotal: 2200,
        vtotal: 1125,
        vscan: 0,
        interlace: false,
        double_scan: false,
    };
    assert_eq!(calculate_refresh_rate(mode), 60000);
    assert_eq!(calculate_refresh_rate(Mode { interlace: true, ..mode }), 120000);
    assert_eq!(calculate_refresh_rate(Mode { double_scan: true, ..mode }), 30000);
    assert_eq!(calculate_refresh_rate(Mode { vscan: 3, ..mode }), 20000);
    assert_eq!(calculate_refresh_rate(Mode { vscan: 1, ..mode }), 60000);
    // 59.94 Hz, rounded
    assert_eq!(calculate_refresh_rate(Mode { clock: 148352, ..mode }), 59940);
    // More than 32 bits are cut off.
    let fast = Mode { clock: u32::MAX, htotal: 1, vtotal: 1, ..mode };
    assert_eq!(calculate_refresh_rate(fast), (u32::MAX as u64 * 1000000) as u32);
}

#[test]
fn connector_names() {
    assert_eq!(interface_name(Interface::EmbeddedDisplayPort, 1), "eDP-1");
    assert_eq!(interface_name(Interface::DisplayPort, 12), "DP-12");
    assert_eq!(interface_name(Interface::HDMIA, 1), "HDMI-A-1");
    assert_eq!(interface_name(Interface::HDMIB, 2), "HDMI-B-2");
    assert_eq!(interface_name(Interface::DVII, 1), "DVI-I-1");
    assert_eq!(interface_name(Interface::DVID, 1), "DVI-D-1");
    assert_eq!(interface_name(Interface::DVIA, 1), "DVI-A-1");
    assert_eq!(interface_name(Interface::SVideo, 1), "S-VIDEO-1");
    assert_eq!(interface_name(Interface::VGA, 1), "VGA-1");
    assert_eq!(interface_name(Interface::NinePinDIN, 1), "NinePinDIN-1");
    assert_eq!(interface_name(Interface::Virtual, 3), "Virtual-3");
    assert_eq!(interface_name(Interface::USB, 1), "USB-1");
}

#[test]
fn primaries_of_the_containers() {
    assert_eq!(HdrColorContainer::Bt2020.primaries(), [35400, 14600, 8500, 39850, 6550, 2300]);
    assert_eq!(HdrColorContainer::DciP3.primaries(), [34000, 16000, 13250, 34500, 7500, 3000]);
}

#[test]
fn mastering_luminances() {
    let fallback = HdrMasteringLuminance::fallback_oled();
    assert_eq!(fallback.max_lum_nits, 525);
    assert_eq!(fallback.min_lum_units, 5);
    assert_eq!(fallback.max_cll_nits, 200);
    assert_eq!(fallback.max_fall_nits, 80);
    let content = HdrMasteringLuminance::for_sdr_content(203);
    assert_eq!(content.max_cll_nits, 203);
    assert_eq!(content.max_fall_nits, 81);
    assert_eq!(HdrMasteringLuminance::for_sdr_content(60000).max_fall_nits, 13107);
}

#[test]
fn metadata_blob_layout() {
    let bytes = build_hdr_metadata_blob(
        HdrMasteringLuminance::for_sdr_content(300),
        HdrColorContainer::DciP3,
    );
    assert_eq!(bytes.len(), 30);
    assert_eq!(&bytes[0..6], &[0, 0, 0, 0, 2, 0]);
    let word = |i: usize| u16::from_le_bytes([bytes[6 + 2 * i], bytes[7 + 2 * i]]);
    let words: Vec<u16> = (0..12).map(word).collect();
    assert_eq!(
        words,
        vec![34000, 16000, 13250, 34500, 7500, 3000, 15635, 16450, 525, 5, 300, 120]
    );
}

#[test]
fn table_blob_layout() {
    let entries = vec![
        DrmColorLutEntry { red: 0x0102, green: 0x0304, blue: 0x0506, reserved: 0 },
        DrmColorLutEntry { red: 0xFFFF, green: 0, blue: 1, reserved: 0 },
    ];
    assert_eq!(
        color_lut_bytes(&entries),
        vec![2, 1, 4, 3, 6, 5, 0, 0, 0xFF, 0xFF, 0, 0, 1, 0, 0, 0]
    );
    assert!(color_lut_bytes(&vec![]).is_empty());
}

#[test]
fn matrix_blob_layout() {
    let mut matrix = [0u64; 9];
    matrix[0] = 0x0102_0304_0506_0708;
    matrix[8] = 1 << 63;
    let bytes = ctm_bytes(&matrix);
    assert_eq!(bytes.len(), 72);
    let expected: Vec<u8> = matrix.iter().flat_map(|x| x.to_le_bytes()).collect();
    assert_eq!(bytes, expected);
}

#[test]
fn color_pipeline_needs_two_tables_and_a_matrix() {
    let full = || {
        vec![
            entry(7, "DEGAMMA_LUT", 0, ValueType::Blob),
            entry(8, "CTM", 0, ValueType::Blob),
            entry(9, "GAMMA_LUT", 0, ValueType::Blob),
        ]
    };
    assert!(crtc_has_color_pipeline(&props(full())));
    for missing in 0..3 {
        let mut entries = full();
        entries.remove(missing);
        assert!(!crtc_has_color_pipeline(&props(entries)));
    }
    // An unreadable property does not hide those behind it.
    let mut entries = full();
    entries.insert(0, unreadable(6));
    assert!(crtc_has_color_pipeline(&props(entries)));
    assert!(!crtc_has_color_pipeline(&ObjectProps { entries: None }));
    // The sizes alone do not make a pipeline.
    let sizes = props(vec![
        entry(1, "DEGAMMA_LUT_SIZE", 129, ValueType::Other),
        entry(2, "GAMMA_LUT_SIZE", 1024, ValueType::Other),
        entry(8, "CTM", 0, ValueType::Blob),
    ]);
    assert!(!crtc_has_color_pipeline(&sizes));
}

#[test]
fn table_sizes() {
    let table = |name: &str, size| entry(1, name, size, ValueType::Other);
    let crtc = props(vec![table("DEGAMMA_LUT_SIZE", 129), table("GAMMA_LUT_SIZE", 1024)]);
    assert_eq!(crtc_degamma_lut_size(&crtc), Some(129));
    assert_eq!(crtc_gamma_lut_size(&crtc), Some(1024));
    assert_eq!(get_crtc_range_prop(&crtc, "GAMMA_LUT_SIZE"), Some(1024));
    assert_eq!(crtc_degamma_lut_size(&props(vec![])), None);
    assert_eq!(crtc_gamma_lut_size(&props(vec![])), None);
    // Sizes are cut to 32 bits.
    let wide = props(vec![table("DEGAMMA_LUT_SIZE", 0x1_0000_0005)]);
    assert_eq!(crtc_degamma_lut_size(&wide), Some(5));
}
