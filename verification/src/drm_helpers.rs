//! What the kernel's mode-setting objects say, and what to write back to them.
//!
//! The caller reads the properties of an object into an `ObjectProps` and carries
//! out the changes that these functions name.
use vstd::prelude::*;
use vstd::string::StringExecFns;

use crate::hw_color_pipeline::DrmColorLutEntry;
use crate::output_config::TransformDef;
use crate::text;

verus! {

// ---------------------------------------------------------------------------
// Properties
// ---------------------------------------------------------------------------

/// A named value of an enumeration. The name is absent where it is not UTF-8.
#[derive(Debug)]
pub struct EnumVariant {
    pub name: Option<String>,
    pub value: u64,
}

/// The type of a property, with what its raw value stands for.
#[derive(Debug)]
pub enum ValueType {
    UnsignedRange(u64, u64),
    /// The variants in order, and the value of the one that the raw value selects.
    Enum { variants: Vec<EnumVariant>, current: Option<u64> },
    Blob,
    Other,
}

/// Name and type of a property. The name is absent where it is not UTF-8.
#[derive(Debug)]
pub struct PropInfo {
    pub name: Option<String>,
    pub value_type: ValueType,
}

/// A property of an object, with its raw value. The device may have failed to
/// say more about it.
#[derive(Debug)]
pub struct PropEntry {
    pub handle: u32,
    pub value: u64,
    pub info: Option<PropInfo>,
}

/// The properties of an object in the device's order, where it could be asked.
#[derive(Debug)]
pub struct ObjectProps {
    pub entries: Option<Vec<PropEntry>>,
}

#[derive(Debug, Clone, Copy, PartialEq, Eq, Structural)]
pub enum PropError {
    /// The device could not be asked.
    Query,
    /// The object has no such property.
    Missing,
    WrongType,
    /// The enumeration has no variant of that name.
    NoVariant,
    InvalidValue(u64),
    /// The connector has no EDID.
    NoEdid,
    /// A range-limits descriptor without range limits.
    InvalidRangeLimits,
}

/// Where a search for a property ends.
pub enum Lookup {
    Found(int),
    Unreadable,
    Missing,
}

pub open spec fn is_named(info: PropInfo, name: Seq<char>) -> bool {
    info.name is Some && info.name->0@ == name
}

/// The first property of that name, from index `i` on. The search ends at a
/// property that the device could not describe.
pub open spec fn lookup_from(entries: Seq<PropEntry>, name: Seq<char>, i: int) -> Lookup
    decreases entries.len() - i,
{
    if i < 0 || i >= entries.len() {
        Lookup::Missing
    } else if entries[i].info is None {
        Lookup::Unreadable
    } else if is_named(entries[i].info->0, name) {
        Lookup::Found(i)
    } else {
        lookup_from(entries, name, i + 1)
    }
}

impl ObjectProps {
    pub open spec fn lookup(self, name: Seq<char>) -> Lookup {
        match self.entries {
            None => Lookup::Unreadable,
            Some(entries) => lookup_from(entries@, name, 0),
        }
    }

    pub open spec fn entry(self, i: int) -> PropEntry {
        self.entries->0@[i]
    }

    pub open spec fn value_type(self, i: int) -> ValueType {
        self.entry(i).info->0.value_type
    }
}

/// The error of a search that did not find its property.
pub open spec fn lookup_error(lookup: Lookup) -> PropError {
    match lookup {
        Lookup::Unreadable => PropError::Query,
        _ => PropError::Missing,
    }
}

fn has_name(name: &Option<String>, expected: &str) -> (yes: bool)
    ensures
        yes == (*name is Some && (*name)->0@ == expected@),
{
    match name {
        Some(name) => text::same_text(name.as_str(), expected),
        None => false,
    }
}

fn find_prop<'a>(props: &'a ObjectProps, name: &str) -> (found: Result<
    (&'a PropEntry, &'a PropInfo),
    PropError,
>)
    ensures
        match props.lookup(name@) {
            Lookup::Found(i) => {
                &&& found matches Ok((entry, info))
                &&& *entry == props.entry(i)
                &&& entry.info == Some(*info)
                &&& is_named(*info, name@)
            },
            lookup => found == Err::<(&PropEntry, &PropInfo), PropError>(lookup_error(lookup)),
        },
{
    match &props.entries {
        None => Err(PropError::Query),
        Some(entries) => {
            let mut i: usize = 0;
            while i < entries.len()
                invariant
                    props.entries == Some(*entries),
                    i <= entries@.len(),
                    lookup_from(entries@, name@, 0) == lookup_from(entries@, name@, i as int),
                decreases entries@.len() - i,
            {
                match &entries[i].info {
                    None => {
                        return Err(PropError::Query);
                    },
                    Some(info) => {
                        if has_name(&info.name, name) {
                            return Ok((&entries[i], info));
                        }
                    },
                }
                i += 1;
            }
            Err(PropError::Missing)
        },
    }
}

/// The handle of the property of that name.
pub fn get_prop(props: &ObjectProps, name: &str) -> (handle: Result<u32, PropError>)
    ensures
        handle == match props.lookup(name@) {
            Lookup::Found(i) => Ok::<u32, PropError>(props.entry(i).handle),
            lookup => Err::<u32, PropError>(lookup_error(lookup)),
        },
{
    match find_prop(props, name) {
        Ok((entry, _)) => Ok(entry.handle),
        Err(error) => Err(error),
    }
}

/// The type and raw value of the property of that name.
pub fn get_property_val<'a>(props: &'a ObjectProps, name: &str) -> (val: Result<
    (&'a ValueType, u64),
    PropError,
>)
    ensures
        match props.lookup(name@) {
            Lookup::Found(i) => val == Ok::<(&ValueType, u64), PropError>(
                (&props.value_type(i), props.entry(i).value),
            ),
            lookup => val == Err::<(&ValueType, u64), PropError>(lookup_error(lookup)),
        },
{
    match find_prop(props, name) {
        Ok((entry, info)) => Ok((&info.value_type, entry.value)),
        Err(error) => Err(error),
    }
}

// ---------------------------------------------------------------------------
// Enumerations
// ---------------------------------------------------------------------------

/// The value of the first variant of that name, from index `i` on.
pub open spec fn variant_from(variants: Seq<EnumVariant>, name: Seq<char>, i: int) -> Option<u64>
    decreases variants.len() - i,
{
    if i < 0 || i >= variants.len() {
        None
    } else if variants[i].name is Some && variants[i].name->0@ == name {
        Some(variants[i].value)
    } else {
        variant_from(variants, name, i + 1)
    }
}

fn variant_value(variants: &Vec<EnumVariant>, name: &str) -> (value: Option<u64>)
    ensures
        value == variant_from(variants@, name@, 0),
{
    let mut i: usize = 0;
    while i < variants.len()
        invariant
            i <= variants@.len(),
            variant_from(variants@, name@, 0) == variant_from(variants@, name@, i as int),
        decreases variants@.len() - i,
    {
        if has_name(&variants[i].name, name) {
            return Some(variants[i].value);
        }
        i += 1;
    }
    None
}

/// The value of a variant of an enumeration property.
pub open spec fn enum_value(props: ObjectProps, prop: Seq<char>, variant: Seq<char>) -> Result<
    u64,
    PropError,
> {
    match props.lookup(prop) {
        Lookup::Found(i) => match props.value_type(i) {
            ValueType::Enum { variants, current } => match variant_from(variants@, variant, 0) {
                Some(value) => Ok(value),
                None => Err(PropError::NoVariant),
            },
            _ => Err(PropError::WrongType),
        },
        lookup => Err(lookup_error(lookup)),
    }
}

fn enum_variant_value(props: &ObjectProps, prop: &str, variant: &str) -> (value: Result<
    u64,
    PropError,
>)
    ensures
        value == enum_value(*props, prop@, variant@),
{
    match find_prop(props, prop) {
        Ok((_, info)) => match &info.value_type {
            ValueType::Enum { variants, .. } => match variant_value(variants, variant) {
                Some(value) => Ok(value),
                None => Err(PropError::NoVariant),
            },
            _ => Err(PropError::WrongType),
        },
        Err(error) => Err(error),
    }
}

/// The change, as handle and raw value, that selects a variant of an enumeration
/// property. An object without the property needs none.
pub open spec fn enum_change(props: ObjectProps, prop: Seq<char>, variant: Seq<char>) -> Result<
    Option<(u32, u64)>,
    PropError,
> {
    match props.lookup(prop) {
        Lookup::Found(i) => match enum_value(props, prop, variant) {
            Ok(value) => Ok(Some((props.entry(i).handle, value))),
            Err(error) => Err(error),
        },
        _ => Ok(None),
    }
}

fn select_variant(props: &ObjectProps, prop: &str, variant: &str) -> (change: Result<
    Option<(u32, u64)>,
    PropError,
>)
    ensures
        change == enum_change(*props, prop@, variant@),
{
    match get_prop(props, prop) {
        Ok(handle) => match enum_variant_value(props, prop, variant) {
            Ok(value) => Ok(Some((handle, value))),
            Err(error) => Err(error),
        },
        Err(_) => Ok(None),
    }
}

/// The change that puts the connector's `Broadcast RGB` property to the full
/// range: its handle, and the value of the variant. There is none where the
/// connector lacks the property, or where the property offers no full range.
pub open spec fn full_range_change(props: ObjectProps) -> Option<(u32, u64)> {
    match props.lookup("Broadcast RGB"@) {
        Lookup::Found(i) => match props.value_type(i) {
            ValueType::Enum { variants, current } => match variant_from(variants@, "Full"@, 0) {
                Some(value) => Some((props.entry(i).handle, value)),
                None => None,
            },
            _ => None,
        },
        _ => None,
    }
}

/// The change that puts the connector's `Broadcast RGB` property to the full
/// range. The kernel's automatic choice may be the limited range, which washes
/// out HDR content. A connector that cannot be put there is left alone: only the
/// write itself can fail.
pub fn set_broadcast_rgb_full(props: &ObjectProps) -> (change: Result<
    Option<(u32, u64)>,
    PropError,
>)
    ensures
        change == Ok::<Option<(u32, u64)>, PropError>(full_range_change(*props)),
{
    match find_prop(props, "Broadcast RGB") {
        Ok((entry, info)) => match &info.value_type {
            ValueType::Enum { variants, .. } => match variant_value(variants, "Full") {
                Some(value) => Ok(Some((entry.handle, value))),
                None => Ok(None),
            },
            _ => Ok(None),
        },
        Err(_) => Ok(None),
    }
}

/// The change that selects a variant of the connector's `Colorspace` property,
/// for a write outside of an atomic commit.
pub fn set_colorspace_legacy(props: &ObjectProps, variant_name: &str) -> (change: Result<
    Option<(u32, u64)>,
    PropError,
>)
    ensures
        change == enum_change(*props, "Colorspace"@, variant_name@),
{
    select_variant(props, "Colorspace", variant_name)
}

/// The raw value of a variant of the connector's `Colorspace` property.
pub fn colorspace_enum_value(props: &ObjectProps, variant_name: &str) -> (value: Result<
    u64,
    PropError,
>)
    ensures
        value == enum_value(*props, "Colorspace"@, variant_name@),
{
    enum_variant_value(props, "Colorspace", variant_name)
}

/// Whether the connector has what HDR signalling needs: the metadata property
/// and a wide-gamut colorspace.
pub fn connector_supports_hdr(props: &ObjectProps) -> (supported: bool)
    ensures
        supported <==> {
            &&& props.lookup("HDR_OUTPUT_METADATA"@) is Found
            &&& enum_value(*props, "Colorspace"@, "DCI-P3_RGB_D65"@) is Ok || enum_value(
                *props,
                "Colorspace"@,
                "BT2020_RGB"@,
            ) is Ok
        },
{
    if get_prop(props, "HDR_OUTPUT_METADATA").is_err() {
        return false;
    }
    colorspace_enum_value(props, "DCI-P3_RGB_D65").is_ok() || colorspace_enum_value(
        props,
        "BT2020_RGB",
    ).is_ok()
}

/// How the panel is built in, as the transform that rights the picture.
pub open spec fn orientation(props: ObjectProps) -> Result<TransformDef, PropError> {
    match props.lookup("panel orientation"@) {
        Lookup::Found(i) => match props.value_type(i) {
            ValueType::Enum { variants, current } => match current {
                Some(value) => if value == 0 {
                    Ok(TransformDef::Normal)
                } else if value == 1 {
                    Ok(TransformDef::_180)
                } else if value == 2 {
                    Ok(TransformDef::_90)
                } else if value == 3 {
                    Ok(TransformDef::_270)
                } else {
                    Err(PropError::InvalidValue(value))
                },
                None => Err(PropError::WrongType),
            },
            _ => Err(PropError::WrongType),
        },
        lookup => Err(lookup_error(lookup)),
    }
}

pub fn panel_orientation(props: &ObjectProps) -> (transform: Result<TransformDef, PropError>)
    ensures
        transform == orientation(*props),
{
    match get_property_val(props, "panel orientation") {
        Ok((value_type, _)) => match value_type {
            ValueType::Enum { current, .. } => match *current {
                Some(value) => match value {
                    // "Normal"
                    0 => Ok(TransformDef::Normal),
                    // "Upside Down"
                    1 => Ok(TransformDef::_180),
                    // "Left Side Up"
                    2 => Ok(TransformDef::_90),
                    // "Right Side Up"
                    3 => Ok(TransformDef::_270),
                    _ => Err(PropError::InvalidValue(value)),
                },
                None => Err(PropError::WrongType),
            },
            _ => Err(PropError::WrongType),
        },
        Err(error) => Err(error),
    }
}

// ---------------------------------------------------------------------------
// Color depth
// ---------------------------------------------------------------------------

/// A value cut to its low 32 bits.
pub open spec fn low_word(value: u64) -> u32 {
    (value % 0x1_0000_0000) as u32
}

fn truncate(value: u64) -> (low: u32)
    ensures
        low == low_word(value),
{
    (value % 0x1_0000_0000) as u32
}

/// The color depth of a connector, and the range that it can be set to.
pub open spec fn max_bpc(props: ObjectProps) -> Result<Option<(u32, (u32, u32))>, PropError> {
    match props.lookup("max bpc"@) {
        Lookup::Found(i) => match props.value_type(i) {
            ValueType::UnsignedRange(least, most) => Ok(
                Some((low_word(props.entry(i).value), (low_word(least), low_word(most)))),
            ),
            _ => Err(PropError::WrongType),
        },
        _ => Ok(None),
    }
}

/// The connector's color depth and the bounds of its range, where it has the
/// property.
pub fn get_max_bpc(props: &ObjectProps) -> (bpc: Result<Option<(u32, (u32, u32))>, PropError>)
    ensures
        bpc == max_bpc(*props),
{
    match find_prop(props, "max bpc") {
        Ok((entry, info)) => match info.value_type {
            ValueType::UnsignedRange(least, most) => Ok(
                Some((truncate(entry.value), (truncate(least), truncate(most)))),
            ),
            _ => Err(PropError::WrongType),
        },
        Err(_) => Ok(None),
    }
}

/// `value`, moved into `least..=most`.
pub open spec fn clamped(value: u32, least: u32, most: u32) -> u32 {
    if value < least {
        least
    } else if value > most {
        most
    } else {
        value
    }
}

/// The change, as handle and raw value, that sets the connector's color depth as
/// near to `bpc` as its range allows.
pub fn set_max_bpc(props: &ObjectProps, bpc: u32) -> (change: Result<(u32, u64), PropError>)
    requires
        max_bpc(*props) matches Ok(Some((_, (least, most)))) ==> least <= most,
    ensures
        change == match max_bpc(*props) {
            Ok(Some((_, (least, most)))) => Ok::<(u32, u64), PropError>(
                (
                    props.entry(props.lookup("max bpc"@)->Found_0).handle,
                    clamped(bpc, least, most) as u64,
                ),
            ),
            Ok(None) => Err::<(u32, u64), PropError>(PropError::Missing),
            Err(error) => Err::<(u32, u64), PropError>(error),
        },
{
    match get_max_bpc(props) {
        Ok(Some((_, (least, most)))) => {
            let value: u32 = if bpc < least {
                least
            } else if bpc > most {
                most
            } else {
                bpc
            };
            match get_prop(props, "max bpc") {
                Ok(handle) => Ok((handle, value as u64)),
                Err(error) => Err(error),
            }
        },
        Ok(None) => Err(PropError::Missing),
        Err(error) => Err(error),
    }
}

/// The color depth that the connector reports once a change was written.
pub fn max_bpc_in_effect(props: &ObjectProps) -> (bpc: Result<u32, PropError>)
    ensures
        bpc == match props.lookup("max bpc"@) {
            Lookup::Found(i) => if props.value_type(i) is UnsignedRange {
                Ok::<u32, PropError>(low_word(props.entry(i).value))
            } else {
                Err::<u32, PropError>(PropError::WrongType)
            },
            lookup => Err::<u32, PropError>(lookup_error(lookup)),
        },
{
    match get_property_val(props, "max bpc") {
        Ok((value_type, value)) => match value_type {
            ValueType::UnsignedRange(_, _) => Ok(truncate(value)),
            _ => Err(PropError::WrongType),
        },
        Err(error) => Err(error),
    }
}

/// What is set lies in the range of the connector, and is what was asked for
/// wherever the range allows it.
pub proof fn lemma_clamped_in_range(value: u32, least: u32, most: u32)
    requires
        least <= most,
    ensures
        least <= clamped(value, least, most) <= most,
        least <= value <= most ==> clamped(value, least, most) == value,
{
}

// ---------------------------------------------------------------------------
// EDID
// ---------------------------------------------------------------------------

/// The raw value of the first property with that handle, from index `i` on.
pub open spec fn value_from(entries: Seq<PropEntry>, handle: u32, i: int) -> Option<u64>
    decreases entries.len() - i,
{
    if i < 0 || i >= entries.len() {
        None
    } else if entries[i].handle == handle {
        Some(entries[i].value)
    } else {
        value_from(entries, handle, i + 1)
    }
}

/// The blob that holds the connector's EDID.
pub open spec fn edid_blob_of(props: ObjectProps) -> Result<u64, PropError> {
    match props.lookup("EDID"@) {
        Lookup::Found(i) => if props.value_type(i) is Blob {
            match value_from(props.entries->0@, props.entry(i).handle, 0) {
                Some(blob) => Ok(blob),
                None => Err(PropError::NoEdid),
            }
        } else {
            Err(PropError::NoEdid)
        },
        lookup => Err(lookup_error(lookup)),
    }
}

/// The blob that holds the connector's EDID.
pub fn edid_blob(props: &ObjectProps) -> (blob: Result<u64, PropError>)
    ensures
        blob == edid_blob_of(*props),
{
    let (handle, is_blob): (u32, bool) = match find_prop(props, "EDID") {
        Ok((entry, info)) => (
            entry.handle,
            match &info.value_type {
                ValueType::Blob => true,
                _ => false,
            },
        ),
        Err(error) => {
            return Err(error);
        },
    };
    if !is_blob {
        return Err(PropError::NoEdid);
    }
    match &props.entries {
        Some(entries) => {
            let mut i: usize = 0;
            while i < entries.len()
                invariant
                    i <= entries@.len(),
                    edid_blob_of(*props) == match value_from(entries@, handle, 0) {
                        Some(blob) => Ok::<u64, PropError>(blob),
                        None => Err::<u64, PropError>(PropError::NoEdid),
                    },
                    value_from(entries@, handle, 0) == value_from(entries@, handle, i as int),
                decreases entries@.len() - i,
            {
                if entries[i].handle == handle {
                    return Ok(entries[i].value);
                }
                i += 1;
            }
            Err(PropError::NoEdid)
        },
        None => Err(PropError::Query),
    }
}

/// A display descriptor of an EDID.
#[derive(Debug, Clone, Copy)]
pub enum DisplayDescriptor {
    /// The least vertical rate in Hz, where the descriptor can be read.
    RangeLimits(Option<i32>),
    Other,
}

/// The least refresh rate that the first range-limits descriptor, from index `i`
/// on, gives.
pub open spec fn minimum_rate_from(descriptors: Seq<DisplayDescriptor>, i: int) -> Result<
    Option<u32>,
    PropError,
>
    decreases descriptors.len() - i,
{
    if i < 0 || i >= descriptors.len() {
        Ok(None)
    } else {
        match descriptors[i] {
            DisplayDescriptor::RangeLimits(Some(rate)) => Ok(Some(rate as u32)),
            DisplayDescriptor::RangeLimits(None) => Err(PropError::InvalidRangeLimits),
            DisplayDescriptor::Other => minimum_rate_from(descriptors, i + 1),
        }
    }
}

/// The least refresh rate in Hz that an EDID gives, if it gives one.
pub fn get_minimum_refresh_rate(descriptors: &Vec<DisplayDescriptor>) -> (rate: Result<
    Option<u32>,
    PropError,
>)
    ensures
        rate == minimum_rate_from(descriptors@, 0),
{
    let mut i: usize = 0;
    while i < descriptors.len()
        invariant
            i <= descriptors@.len(),
            minimum_rate_from(descriptors@, 0) == minimum_rate_from(descriptors@, i as int),
        decreases descriptors@.len() - i,
    {
        match descriptors[i] {
            DisplayDescriptor::RangeLimits(Some(rate)) => {
                return Ok(
                    Some(
                        #[verifier::truncate]
                        (rate as u32),
                    ),
                );
            },
            DisplayDescriptor::RangeLimits(None) => {
                return Err(PropError::InvalidRangeLimits);
            },
            DisplayDescriptor::Other => {},
        }
        i += 1;
    }
    Ok(None)
}

// ---------------------------------------------------------------------------
// Modes and connector names
// ---------------------------------------------------------------------------

/// The timings of a mode, as far as the refresh rate depends on them.
#[derive(Debug, Clone, Copy, PartialEq, Eq, Structural)]
pub struct Mode {
    /// The pixel clock in kHz.
    pub clock: u32,
    /// The pixels of a line, blanking included.
    pub htotal: u16,
    /// The lines of a frame, blanking included.
    pub vtotal: u16,
    pub vscan: u16,
    pub interlace: bool,
    pub double_scan: bool,
}

/// The refresh rate in millihertz: pixels per second over pixels per line, and
/// over lines per frame with rounding; interlacing doubles it, double scan halves
/// it, and repeated lines divide it.
pub open spec fn refresh_millihertz(mode: Mode) -> nat {
    let lines = mode.clock as nat * 1000000 / mode.htotal as nat;
    let frames = (lines + mode.vtotal as nat / 2) / mode.vtotal as nat;
    let fields = if mode.interlace {
        frames * 2
    } else {
        frames
    };
    let scans = if mode.double_scan {
        fields / 2
    } else {
        fields
    };
    if mode.vscan > 1 {
        scans / mode.vscan as nat
    } else {
        scans
    }
}

/// The refresh rate of a mode in millihertz, cut to 32 bits.
pub fn calculate_refresh_rate(mode: Mode) -> (refresh: u32)
    requires
        mode.htotal > 0,
        mode.vtotal > 0,
    ensures
        refresh == refresh_millihertz(mode) % 0x1_0000_0000,
{
    let lines: u64 = mode.clock as u64 * 1000000 / mode.htotal as u64;
    proof {
        vstd::arithmetic::div_mod::lemma_div_is_ordered_by_denominator(
            mode.clock * 1000000,
            1,
            mode.htotal as int,
        );
        assert(lines <= mode.clock * 1000000);
    }
    let mut refresh: u64 = (lines + mode.vtotal as u64 / 2) / mode.vtotal as u64;
    proof {
        vstd::arithmetic::div_mod::lemma_div_is_ordered_by_denominator(
            lines + mode.vtotal as int / 2,
            1,
            mode.vtotal as int,
        );
        assert(refresh <= mode.clock * 1000000 + 0xFFFF);
    }
    if mode.interlace {
        refresh = refresh * 2;
    }
    if mode.double_scan {
        refresh = refresh / 2;
    }
    if mode.vscan > 1 {
        refresh = refresh / mode.vscan as u64;
    }
    truncate(refresh)
}

/// The kind of a connector.
#[derive(Debug, Clone, Copy, PartialEq, Eq, Structural)]
pub enum Interface {
    Unknown,
    VGA,
    DVII,
    DVID,
    DVIA,
    Composite,
    SVideo,
    LVDS,
    Component,
    NinePinDIN,
    DisplayPort,
    HDMIA,
    HDMIB,
    TV,
    EmbeddedDisplayPort,
    Virtual,
    DSI,
    DPI,
    Writeback,
    SPI,
    USB,
}

pub open spec fn interface_short_name(interface: Interface) -> Seq<char> {
    match interface {
        Interface::Unknown => "Unknown"@,
        Interface::VGA => "VGA"@,
        Interface::DVII => "DVI-I"@,
        Interface::DVID => "DVI-D"@,
        Interface::DVIA => "DVI-A"@,
        Interface::Composite => "Composite"@,
        Interface::SVideo => "S-VIDEO"@,
        Interface::LVDS => "LVDS"@,
        Interface::Component => "Component"@,
        Interface::NinePinDIN => "NinePinDIN"@,
        Interface::DisplayPort => "DP"@,
        Interface::HDMIA => "HDMI-A"@,
        Interface::HDMIB => "HDMI-B"@,
        Interface::TV => "TV"@,
        Interface::EmbeddedDisplayPort => "eDP"@,
        Interface::Virtual => "Virtual"@,
        Interface::DSI => "DSI"@,
        Interface::DPI => "DPI"@,
        Interface::Writeback => "Writeback"@,
        Interface::SPI => "SPI"@,
        Interface::USB => "USB"@,
    }
}

/// The name of a connector: its kind and its number among those of the kind.
pub fn interface_name(interface: Interface, interface_id: u32) -> (name: String)
    ensures
        name@ == interface_short_name(interface) + "-"@ + text::decimal(interface_id as nat),
{
    let short: &'static str = match interface {
        Interface::Unknown => "Unknown",
        Interface::VGA => "VGA",
        Interface::DVII => "DVI-I",
        Interface::DVID => "DVI-D",
        Interface::DVIA => "DVI-A",
        Interface::Composite => "Composite",
        Interface::SVideo => "S-VIDEO",
        Interface::LVDS => "LVDS",
        Interface::Component => "Component",
        Interface::NinePinDIN => "NinePinDIN",
        Interface::DisplayPort => "DP",
        Interface::HDMIA => "HDMI-A",
        Interface::HDMIB => "HDMI-B",
        Interface::TV => "TV",
        Interface::EmbeddedDisplayPort => "eDP",
        Interface::Virtual => "Virtual",
        Interface::DSI => "DSI",
        Interface::DPI => "DPI",
        Interface::Writeback => "Writeback",
        Interface::SPI => "SPI",
        Interface::USB => "USB",
    };
    let mut name: String = short.to_owned();
    name.append("-");
    name.append(text::decimal_text(interface_id).as_str());
    name
}

// ---------------------------------------------------------------------------
// HDR signalling
// ---------------------------------------------------------------------------

/// Which wide-gamut container the output is tagged with. It decides both the
/// display primaries of the metadata blob and the variant of the connector's
/// `Colorspace` property.
#[derive(Debug, Clone, Copy, PartialEq, Eq, Structural)]
pub enum HdrColorContainer {
    Bt2020,
    DciP3,
}

impl HdrColorContainer {
    pub open spec fn variant_name(self) -> Seq<char> {
        match self {
            HdrColorContainer::Bt2020 => "BT2020_RGB"@,
            HdrColorContainer::DciP3 => "DCI-P3_RGB_D65"@,
        }
    }

    /// The chromaticities of red, green and blue, x before y, in units of 0.00002.
    pub open spec fn chromaticities(self) -> Seq<u16> {
        match self {
            HdrColorContainer::Bt2020 => seq![35400u16, 14600, 8500, 39850, 6550, 2300],
            HdrColorContainer::DciP3 => seq![34000u16, 16000, 13250, 34500, 7500, 3000],
        }
    }

    /// The variant of the `Colorspace` property for this container.
    pub fn colorspace_variant(self) -> (variant: &'static str)
        ensures
            variant@ == self.variant_name(),
    {
        match self {
            HdrColorContainer::Bt2020 => "BT2020_RGB",
            HdrColorContainer::DciP3 => "DCI-P3_RGB_D65",
        }
    }

    /// The display primaries, interleaved as red x, red y, green x, and so on.
    pub fn primaries(self) -> (primaries: [u16; 6])
        ensures
            primaries@ == self.chromaticities(),
    {
        let primaries: [u16; 6] = match self {
            HdrColorContainer::Bt2020 => [35400, 14600, 8500, 39850, 6550, 2300],
            HdrColorContainer::DciP3 => [34000, 16000, 13250, 34500, 7500, 3000],
        };
        assert(primaries@ =~= self.chromaticities());
        primaries
    }
}

/// The mastering luminance of an output, in the kernel's units.
#[derive(Debug, Clone, Copy, PartialEq, Eq, Structural)]
pub struct HdrMasteringLuminance {
    /// Peak luminance in cd/m².
    pub max_lum_nits: u16,
    /// Least luminance in units of 0.0001 cd/m².
    pub min_lum_units: u16,
    /// The brightest pixel of the content in cd/m².
    pub max_cll_nits: u16,
    /// The largest frame average of the content in cd/m².
    pub max_fall_nits: u16,
}

impl HdrMasteringLuminance {
    /// Conservative values for an OLED panel whose EDID says nothing.
    pub fn fallback_oled() -> (luminance: Self)
        ensures
            luminance == (HdrMasteringLuminance {
                max_lum_nits: 525,
                min_lum_units: 5,
                max_cll_nits: 200,
                max_fall_nits: 80,
            }),
    {
        HdrMasteringLuminance {
            max_lum_nits: 525,
            min_lum_units: 5,
            max_cll_nits: 200,
            max_fall_nits: 80,
        }
    }

    /// The values for SDR content that is shown with the given reference white:
    /// it peaks there, and its frames average two fifths of that.
    pub fn for_sdr_content(ref_white_nits: u16) -> (luminance: Self)
        ensures
            luminance.max_lum_nits == 525,
            luminance.min_lum_units == 5,
            luminance.max_cll_nits == ref_white_nits,
            luminance.max_fall_nits == (if 2 * ref_white_nits <= u16::MAX {
                2 * ref_white_nits
            } else {
                u16::MAX as int
            }) / 5,
    {
        let doubled: u16 = if ref_white_nits <= u16::MAX / 2 {
            2 * ref_white_nits
        } else {
            u16::MAX
        };
        HdrMasteringLuminance {
            max_lum_nits: 525,
            min_lum_units: 5,
            max_cll_nits: ref_white_nits,
            max_fall_nits: doubled / 5,
        }
    }
}

/// A 16-bit number, low byte first.
pub open spec fn le16(x: u16) -> Seq<u8> {
    seq![(x % 256) as u8, (x / 256) as u8]
}

/// A 64-bit number, low byte first.
pub open spec fn le64(x: u64) -> Seq<u8> {
    le16((x % 0x1_0000) as u16) + le16((x / 0x1_0000 % 0x1_0000) as u16) + le16(
        (x / 0x1_0000_0000 % 0x1_0000) as u16,
    ) + le16((x / 0x1_0000_0000_0000) as u16)
}

fn push_le16(bytes: &mut Vec<u8>, x: u16)
    ensures
        final(bytes)@ == old(bytes)@ + le16(x),
{
    bytes.push((x % 256) as u8);
    bytes.push((x / 256) as u8);
    assert(bytes@ =~= old(bytes)@ + le16(x));
}

fn push_le64(bytes: &mut Vec<u8>, x: u64)
    ensures
        final(bytes)@ == old(bytes)@ + le64(x),
{
    push_le16(bytes, (x % 0x1_0000) as u16);
    push_le16(bytes, (x / 0x1_0000 % 0x1_0000) as u16);
    push_le16(bytes, (x / 0x1_0000_0000 % 0x1_0000) as u16);
    push_le16(bytes, (x / 0x1_0000_0000_0000) as u16);
    assert(bytes@ =~= old(bytes)@ + le64(x));
}

/// Numbers in their order, each with its low byte first.
pub open spec fn le16_all(numbers: Seq<u16>) -> Seq<u8>
    decreases numbers.len(),
{
    if numbers.len() == 0 {
        Seq::empty()
    } else {
        le16_all(numbers.drop_last()) + le16(numbers.last())
    }
}

/// The kernel's `struct hdr_output_metadata`: the type (four bytes), the transfer
/// function (two stands for PQ), the metadata type, and then 16-bit numbers: the
/// primaries, the D65 white point, the mastering luminance and the light levels.
pub open spec fn hdr_metadata_bytes(
    lum: HdrMasteringLuminance,
    container: HdrColorContainer,
) -> Seq<u8> {
    seq![0u8, 0, 0, 0, 2, 0] + le16_all(
        container.chromaticities() + seq![
            15635u16,
            16450,
            lum.max_lum_nits,
            lum.min_lum_units,
            lum.max_cll_nits,
            lum.max_fall_nits,
        ],
    )
}

/// The bytes of the `HDR_OUTPUT_METADATA` blob for PQ content.
pub fn build_hdr_metadata_blob(lum: HdrMasteringLuminance, container: HdrColorContainer) -> (bytes:
    Vec<u8>)
    ensures
        bytes@ == hdr_metadata_bytes(lum, container),
        bytes@.len() == 30,
{
    let primaries: [u16; 6] = container.primaries();
    let numbers: [u16; 12] = [
        primaries[0],
        primaries[1],
        primaries[2],
        primaries[3],
        primaries[4],
        primaries[5],
        15635,
        16450,
        lum.max_lum_nits,
        lum.min_lum_units,
        lum.max_cll_nits,
        lum.max_fall_nits,
    ];
    let ghost all = container.chromaticities() + seq![
        15635u16,
        16450,
        lum.max_lum_nits,
        lum.min_lum_units,
        lum.max_cll_nits,
        lum.max_fall_nits,
    ];
    assert(numbers@ =~= all);
    let mut bytes: Vec<u8> = Vec::new();
    bytes.push(0);
    bytes.push(0);
    bytes.push(0);
    bytes.push(0);
    bytes.push(2);
    bytes.push(0);
    let ghost head = seq![0u8, 0, 0, 0, 2, 0];
    assert(bytes@ =~= head);
    let mut i: usize = 0;
    proof {
        assert(all.take(0) =~= Seq::<u16>::empty());
        assert(head + le16_all(all.take(0)) =~= head);
    }
    while i < 12
        invariant
            i <= 12,
            numbers@ == all,
            all.len() == 12,
            head.len() == 6,
            bytes@ == head + le16_all(all.take(i as int)),
            bytes@.len() == 6 + 2 * i,
        decreases 12 - i,
    {
        push_le16(&mut bytes, numbers[i]);
        proof {
            let next = all.take(i + 1);
            assert(next.drop_last() =~= all.take(i as int));
            assert(bytes@ =~= head + le16_all(next));
        }
        i += 1;
    }
    assert(all.take(12) =~= all);
    bytes
}

/// An entry of a table as the kernel's `struct drm_color_lut`.
pub open spec fn lut_entry_bytes(entry: DrmColorLutEntry) -> Seq<u8> {
    le16(entry.red) + le16(entry.green) + le16(entry.blue) + le16(entry.reserved)
}

/// The entries of a table in their order.
pub open spec fn lut_bytes(entries: Seq<DrmColorLutEntry>) -> Seq<u8>
    decreases entries.len(),
{
    if entries.len() == 0 {
        Seq::empty()
    } else {
        lut_bytes(entries.drop_last()) + lut_entry_bytes(entries.last())
    }
}

/// The bytes of a table's blob.
pub fn color_lut_bytes(entries: &Vec<DrmColorLutEntry>) -> (bytes: Vec<u8>)
    ensures
        bytes@ == lut_bytes(entries@),
{
    let mut bytes: Vec<u8> = Vec::new();
    let mut i: usize = 0;
    assert(entries@.take(0) =~= Seq::<DrmColorLutEntry>::empty());
    while i < entries.len()
        invariant
            i <= entries@.len(),
            bytes@ == lut_bytes(entries@.take(i as int)),
        decreases entries@.len() - i,
    {
        let entry: DrmColorLutEntry = entries[i];
        push_le16(&mut bytes, entry.red);
        push_le16(&mut bytes, entry.green);
        push_le16(&mut bytes, entry.blue);
        push_le16(&mut bytes, entry.reserved);
        proof {
            let next = entries@.take(i + 1);
            assert(next.drop_last() =~= entries@.take(i as int));
            assert(bytes@ =~= lut_bytes(next));
        }
        i += 1;
    }
    assert(entries@.take(i as int) =~= entries@);
    bytes
}

/// A table takes eight bytes for each entry, and each entry stands at its place.
pub proof fn lemma_lut_bytes_layout(entries: Seq<DrmColorLutEntry>, i: int)
    requires
        0 <= i < entries.len(),
    ensures
        lut_bytes(entries).len() == 8 * entries.len(),
        lut_bytes(entries).subrange(8 * i, 8 * i + 8) == lut_entry_bytes(entries[i]),
    decreases entries.len(),
{
    let less = entries.drop_last();
    if less.len() > 0 {
        lemma_lut_bytes_layout(
            less,
            if i < less.len() {
                i
            } else {
                0
            },
        );
    } else {
        assert(lut_bytes(less).len() == 0);
    }
    if i < less.len() {
        assert(lut_bytes(entries).subrange(8 * i, 8 * i + 8) =~= lut_bytes(less).subrange(
            8 * i,
            8 * i + 8,
        ));
    } else {
        assert(lut_bytes(entries).subrange(8 * i, 8 * i + 8) =~= lut_entry_bytes(entries[i]));
    }
}

/// Numbers in their order, each with its low byte first.
pub open spec fn le64_all(numbers: Seq<u64>) -> Seq<u8>
    decreases numbers.len(),
{
    if numbers.len() == 0 {
        Seq::empty()
    } else {
        le64_all(numbers.drop_last()) + le64(numbers.last())
    }
}

/// The bytes of a matrix's blob, the kernel's `struct drm_color_ctm`.
pub fn ctm_bytes(matrix: &[u64; 9]) -> (bytes: Vec<u8>)
    ensures
        bytes@ == le64_all(matrix@),
        bytes@.len() == 72,
{
    let mut bytes: Vec<u8> = Vec::new();
    let mut i: usize = 0;
    assert(matrix@.take(0) =~= Seq::<u64>::empty());
    while i < 9
        invariant
            i <= 9,
            matrix@.len() == 9,
            bytes@ == le64_all(matrix@.take(i as int)),
            bytes@.len() == 8 * i,
        decreases 9 - i,
    {
        push_le64(&mut bytes, matrix[i]);
        proof {
            let next = matrix@.take(i + 1);
            assert(next.drop_last() =~= matrix@.take(i as int));
        }
        i += 1;
    }
    assert(matrix@.take(9) =~= matrix@);
    bytes
}

// ---------------------------------------------------------------------------
// CRTC color pipeline
// ---------------------------------------------------------------------------

/// The raw value of a property of a CRTC, where the search finds it.
pub open spec fn range_value(props: ObjectProps, name: Seq<char>) -> Option<u64> {
    match props.lookup(name) {
        Lookup::Found(i) => Some(props.entry(i).value),
        _ => None,
    }
}

/// The raw value of a CRTC's property; none where the CRTC lacks it.
pub fn get_crtc_range_prop(props: &ObjectProps, name: &str) -> (value: Option<u64>)
    ensures
        value == range_value(*props, name@),
{
    match find_prop(props, name) {
        Ok((entry, _)) => Some(entry.value),
        Err(_) => None,
    }
}

/// The number of entries of the CRTC's `DEGAMMA_LUT`.
pub fn crtc_degamma_lut_size(props: &ObjectProps) -> (size: Option<u32>)
    ensures
        size == match range_value(*props, "DEGAMMA_LUT_SIZE"@) {
            Some(value) => Some(low_word(value)),
            None => None::<u32>,
        },
{
    match get_crtc_range_prop(props, "DEGAMMA_LUT_SIZE") {
        Some(value) => Some(truncate(value)),
        None => None,
    }
}

/// The number of entries of the CRTC's `GAMMA_LUT`.
pub fn crtc_gamma_lut_size(props: &ObjectProps) -> (size: Option<u32>)
    ensures
        size == match range_value(*props, "GAMMA_LUT_SIZE"@) {
            Some(value) => Some(low_word(value)),
            None => None::<u32>,
        },
{
    match get_crtc_range_prop(props, "GAMMA_LUT_SIZE") {
        Some(value) => Some(truncate(value)),
        None => None,
    }
}

/// Some property of the object has that name. Those that the device could not
/// describe are passed over.
pub open spec fn has_property(props: ObjectProps, name: Seq<char>) -> bool {
    props.entries is Some && exists|i: int|
        0 <= i < props.entries->0@.len() && (#[trigger] props.entries->0@[i]).info is Some
            && is_named(props.entries->0@[i].info->0, name)
}

fn any_property_named(props: &ObjectProps, name: &str) -> (found: bool)
    ensures
        found == has_property(*props, name@),
{
    match &props.entries {
        None => false,
        Some(entries) => {
            let mut i: usize = 0;
            while i < entries.len()
                invariant
                    props.entries == Some(*entries),
                    i <= entries@.len(),
                    forall|j: int|
                        0 <= j < i ==> !((#[trigger] entries@[j]).info is Some && is_named(
                            entries@[j].info->0,
                            name@,
                        )),
                decreases entries@.len() - i,
            {
                let named: bool = match &entries[i].info {
                    Some(info) => has_name(&info.name, name),
                    None => false,
                };
                if named {
                    assert(entries@[i as int].info is Some);
                    return true;
                }
                i += 1;
            }
            false
        },
    }
}

/// Whether the CRTC can do the HDR encoding in hardware: it has both tables and
/// the matrix between them.
pub fn crtc_has_color_pipeline(props: &ObjectProps) -> (yes: bool)
    ensures
        yes == (has_property(*props, "DEGAMMA_LUT"@) && has_property(*props, "CTM"@)
            && has_property(*props, "GAMMA_LUT"@)),
{
    any_property_named(props, "DEGAMMA_LUT") && any_property_named(props, "CTM")
        && any_property_named(props, "GAMMA_LUT")
}

// ---------------------------------------------------------------------------
// Laws of the properties
// ---------------------------------------------------------------------------

proof fn lemma_lookup_from(entries: Seq<PropEntry>, name: Seq<char>, i: int)
    requires
        0 <= i <= entries.len(),
    ensures
        match lookup_from(entries, name, i) {
            Lookup::Found(at) => {
                &&& i <= at < entries.len()
                &&& entries[at].info is Some && is_named(entries[at].info->0, name)
                &&& forall|k: int|
                    i <= k < at ==> (#[trigger] entries[k]).info is Some && !is_named(
                        entries[k].info->0,
                        name,
                    )
            },
            Lookup::Unreadable => exists|at: int|
                {
                    &&& i <= at < entries.len()
                    &&& (#[trigger] entries[at]).info is None
                    &&& forall|k: int|
                        i <= k < at ==> (#[trigger] entries[k]).info is Some && !is_named(
                            entries[k].info->0,
                            name,
                        )
                },
            Lookup::Missing => forall|k: int|
                i <= k < entries.len() ==> (#[trigger] entries[k]).info is Some && !is_named(
                    entries[k].info->0,
                    name,
                ),
        },
    decreases entries.len() - i,
{
    if i < entries.len() {
        lemma_lookup_from(entries, name, i + 1);
        if entries[i].info is None {
            assert(entries[i].info is None);
        } else if !is_named(entries[i].info->0, name) {
            if lookup_from(entries, name, i + 1) is Unreadable {
                let at = choose|at: int|
                    {
                        &&& i + 1 <= at < entries.len()
                        &&& (#[trigger] entries[at]).info is None
                        &&& forall|k: int|
                            i + 1 <= k < at ==> (#[trigger] entries[k]).info is Some && !is_named(
                                entries[k].info->0,
                                name,
                            )
                    };
                assert(entries[at].info is None);
            }
        }
    }
}

/// A search finds the first property of its name, provided that all before it could be
/// described. It ends at the first that could not be, and finds nothing exactly if all could
/// be and none has the name.
pub proof fn lemma_search_finds_the_first(props: ObjectProps, name: Seq<char>)
    ensures
        props.entries is None ==> props.lookup(name) is Unreadable,
        props.entries matches Some(entries) ==> match props.lookup(name) {
            Lookup::Found(at) => {
                &&& 0 <= at < entries@.len()
                &&& entries@[at].info matches Some(info) && info.name is Some && info.name->0@
                    == name
                &&& forall|k: int|
                    0 <= k < at ==> (#[trigger] entries@[k]).info is Some && (
                    entries@[k].info->0.name is Some ==> entries@[k].info->0.name->0@ != name)
            },
            Lookup::Unreadable => exists|at: int|
                {
                    &&& 0 <= at < entries@.len()
                    &&& (#[trigger] entries@[at]).info is None
                    &&& forall|k: int|
                        0 <= k < at ==> (#[trigger] entries@[k]).info is Some && (
                        entries@[k].info->0.name is Some ==> entries@[k].info->0.name->0@ != name)
                },
            Lookup::Missing => forall|k: int|
                0 <= k < entries@.len() ==> (#[trigger] entries@[k]).info is Some && (
                entries@[k].info->0.name is Some ==> entries@[k].info->0.name->0@ != name),
        },
        forall|i: int|
            props.entries matches Some(entries) ==> #[trigger] props.entry(i) == entries@[i],
        forall|i: int| #[trigger] props.value_type(i) == props.entry(i).info->0.value_type,
{
    if let Some(entries) = props.entries {
        lemma_lookup_from(entries@, name, 0);
        if props.lookup(name) is Unreadable {
            let at = choose|at: int|
                {
                    &&& 0 <= at < entries@.len()
                    &&& (#[trigger] entries@[at]).info is None
                    &&& forall|k: int|
                        0 <= k < at ==> (#[trigger] entries@[k]).info is Some && !is_named(
                            entries@[k].info->0,
                            name,
                        )
                };
            assert(entries@[at].info is None);
        }
    }
}

/// A device that could not be asked is told apart from a property that is not there.
pub proof fn lemma_search_errors(props: ObjectProps, name: Seq<char>)
    ensures
        props.lookup(name) is Unreadable ==> lookup_error(props.lookup(name)) == PropError::Query,
        props.lookup(name) is Missing ==> lookup_error(props.lookup(name)) == PropError::Missing,
{
}

/// Where the device could describe all properties, a CRTC has one exactly if a search
/// finds it. One that could not be described hides nothing that comes after it.
pub proof fn lemma_described_properties_are_found(props: ObjectProps, name: Seq<char>)
    ensures
        props.lookup(name) is Found ==> has_property(props, name),
        props.lookup(name) is Missing ==> !has_property(props, name),
        props.entries is None ==> !has_property(props, name),
        range_value(props, name) is Some <==> props.lookup(name) is Found,
        props.lookup(name) matches Lookup::Found(i) ==> range_value(props, name) == Some(
            props.entries->0@[i].value,
        ),
{
    if let Some(entries) = props.entries {
        lemma_lookup_from(entries@, name, 0);
        if let Lookup::Found(i) = props.lookup(name) {
            assert(props.entries->0@[i].info is Some);
        }
    }
}

/// A variant is found by the first that has its name.
pub proof fn lemma_first_variant_counts(variants: Seq<EnumVariant>, name: Seq<char>, i: int)
    requires
        0 <= i,
    ensures
        match variant_from(variants, name, i) {
            Some(value) => exists|at: int|
                {
                    &&& i <= at < variants.len()
                    &&& (#[trigger] variants[at]).name is Some && variants[at].name->0@ == name
                    &&& variants[at].value == value
                    &&& forall|k: int|
                        i <= k < at && (#[trigger] variants[k]).name is Some
                            ==> variants[k].name->0@ != name
                },
            None => forall|k: int|
                i <= k < variants.len() && (#[trigger] variants[k]).name is Some
                    ==> variants[k].name->0@ != name,
        },
    decreases variants.len() - i,
{
    if i < variants.len() {
        if variants[i].name is Some && variants[i].name->0@ == name {
            assert(variants[i].name is Some);
        } else {
            lemma_first_variant_counts(variants, name, i + 1);
            if let Some(value) = variant_from(variants, name, i + 1) {
                let at = choose|at: int|
                    {
                        &&& i + 1 <= at < variants.len()
                        &&& (#[trigger] variants[at]).name is Some && variants[at].name->0@ == name
                        &&& variants[at].value == value
                        &&& forall|k: int|
                            i + 1 <= k < at && (#[trigger] variants[k]).name is Some
                                ==> variants[k].name->0@ != name
                    };
                assert(variants[at].name is Some);
            }
        }
    }
}

/// A variant can be selected exactly if the property is an enumeration that has it; each
/// reason against it has an error of its own, and only the absence of the property is
/// passed over in silence.
pub proof fn lemma_selecting_variants(props: ObjectProps, prop: Seq<char>, variant: Seq<char>)
    ensures
        ({
            let value = enum_value(props, prop, variant);
            let change = enum_change(props, prop, variant);
            match props.lookup(prop) {
                Lookup::Found(i) => {
                    &&& match props.value_type(i) {
                        ValueType::Enum { variants, .. } => match variant_from(
                            variants@,
                            variant,
                            0,
                        ) {
                            Some(raw) => value == Ok::<u64, PropError>(raw),
                            None => value == Err::<u64, PropError>(PropError::NoVariant),
                        },
                        _ => value == Err::<u64, PropError>(PropError::WrongType),
                    }
                    &&& match value {
                        Ok(raw) => change matches Ok(Some((handle, found))) && handle
                            == props.entries->0@[i].handle && found == raw,
                        Err(error) => change == Err::<Option<(u32, u64)>, PropError>(error),
                    }
                },
                Lookup::Unreadable => value == Err::<u64, PropError>(PropError::Query)
                    && change matches Ok(None),
                Lookup::Missing => value == Err::<u64, PropError>(PropError::Missing)
                    && change matches Ok(None),
            }
        }),
{
}

/// The range is put to full exactly where the connector's property is an enumeration with
/// that variant, as selecting the variant would; what selecting refuses is left alone.
pub proof fn lemma_full_range_is_a_selection(props: ObjectProps)
    ensures
        match enum_change(props, "Broadcast RGB"@, "Full"@) {
            Ok(change) => full_range_change(props) == change,
            Err(_) => full_range_change(props) is None,
        },
        full_range_change(props) is Some <==> enum_value(props, "Broadcast RGB"@, "Full"@) is Ok,
        full_range_change(props) matches Some((handle, value)) ==> {
            &&& enum_value(props, "Broadcast RGB"@, "Full"@) == Ok::<u64, PropError>(value)
            &&& props.lookup("Broadcast RGB"@) matches Lookup::Found(i)
            &&& handle == props.entries->0@[i].handle
        },
{
}

/// A panel that stands on its head is turned by a half, and one that lies on a side by a
/// quarter, each to the other way; any other value is an error that names it.
pub proof fn lemma_orientations(props: ObjectProps, i: int, value: u64)
    requires
        props.lookup("panel orientation"@) == Lookup::Found(i),
        props.value_type(i) matches ValueType::Enum { current, .. } && current == Some(value),
    ensures
        value == 0 <==> orientation(props) == Ok::<TransformDef, PropError>(TransformDef::Normal),
        value == 1 <==> orientation(props) == Ok::<TransformDef, PropError>(TransformDef::_180),
        value == 2 <==> orientation(props) == Ok::<TransformDef, PropError>(TransformDef::_90),
        value == 3 <==> orientation(props) == Ok::<TransformDef, PropError>(TransformDef::_270),
        value > 3 <==> orientation(props) == Err::<TransformDef, PropError>(
            PropError::InvalidValue(value),
        ),
{
}

/// Without such a property, or with one that selects nothing, there is no orientation.
pub proof fn lemma_orientation_is_an_enum(props: ObjectProps)
    ensures
        props.lookup("panel orientation"@) is Missing ==> orientation(props) == Err::<
            TransformDef,
            PropError,
        >(PropError::Missing),
        props.lookup("panel orientation"@) is Unreadable ==> orientation(props) == Err::<
            TransformDef,
            PropError,
        >(PropError::Query),
        props.lookup("panel orientation"@) matches Lookup::Found(i) ==> ((!(props.value_type(
            i,
        ) is Enum) || props.value_type(i)->current is None) <==> orientation(props) == Err::<
            TransformDef,
            PropError,
        >(PropError::WrongType)),
{
}

/// A value is cut to 32 bits: what is left differs from it by a multiple of `2^32`.
pub proof fn lemma_low_word(value: u64)
    ensures
        value < 0x1_0000_0000 ==> low_word(value) == value,
        exists|q: int| value == #[trigger] (q * 0x1_0000_0000) + low_word(value),
{
    let q = value as int / 0x1_0000_0000;
    assert(value == q * 0x1_0000_0000 + low_word(value));
}

/// The color depth comes with its range, least before most, and only from a property that
/// is a range.
pub proof fn lemma_depth_of_connector(props: ObjectProps)
    ensures
        match props.lookup("max bpc"@) {
            Lookup::Found(i) => match props.value_type(i) {
                ValueType::UnsignedRange(least, most) => max_bpc(props) matches Ok(
                    Some((depth, range)),
                ) && depth == low_word(props.entries->0@[i].value) && range.0 == low_word(least)
                    && range.1 == low_word(most),
                _ => max_bpc(props) matches Err(error) && error == PropError::WrongType,
            },
            _ => max_bpc(props) matches Ok(None),
        },
{
}

/// No depth in the range is nearer to what was asked for than the one that is set.
pub proof fn lemma_set_depth_is_nearest(value: u32, least: u32, most: u32, other: u32)
    requires
        least <= other <= most,
    ensures
        ({
            let set = clamped(value, least, most);
            &&& least <= set <= most
            &&& value <= set ==> set - value <= if other >= value {
                other - value
            } else {
                value - other
            }
            &&& value >= set ==> value - set <= if other >= value {
                other - value
            } else {
                value - other
            }
        }),
{
}

/// The EDID is the value of the first property with the handle of the one that is called so,
/// provided that it is a blob.
pub proof fn lemma_edid_is_a_blob(props: ObjectProps)
    ensures
        match props.lookup("EDID"@) {
            Lookup::Found(i) => if props.value_type(i) is Blob {
                exists|k: int|
                    {
                        &&& 0 <= k <= i
                        &&& (#[trigger] props.entries->0@[k]).handle == props.entries->0@[i].handle
                        &&& edid_blob_of(props) == Ok::<u64, PropError>(
                            props.entries->0@[k].value,
                        )
                        &&& forall|j: int|
                            0 <= j < k ==> (#[trigger] props.entries->0@[j]).handle
                                != props.entries->0@[i].handle
                    }
            } else {
                edid_blob_of(props) == Err::<u64, PropError>(PropError::NoEdid)
            },
            Lookup::Unreadable => edid_blob_of(props) == Err::<u64, PropError>(PropError::Query),
            Lookup::Missing => edid_blob_of(props) == Err::<u64, PropError>(PropError::Missing),
        },
{
    if let Some(entries) = props.entries {
        lemma_lookup_from(entries@, "EDID"@, 0);
        if let Lookup::Found(i) = props.lookup("EDID"@) {
            let k = lemma_value_from(entries@, entries@[i].handle, 0, i);
            assert(props.entries->0@[k].handle == props.entries->0@[i].handle);
        }
    }
}

proof fn lemma_value_from(entries: Seq<PropEntry>, handle: u32, i: int, at: int) -> (k: int)
    requires
        0 <= i <= at < entries.len(),
        entries[at].handle == handle,
    ensures
        i <= k <= at,
        entries[k].handle == handle,
        value_from(entries, handle, i) == Some(entries[k].value),
        forall|j: int| i <= j < k ==> (#[trigger] entries[j]).handle != handle,
    decreases at - i,
{
    if entries[i].handle == handle {
        i
    } else {
        lemma_value_from(entries, handle, i + 1, at)
    }
}

/// The first range-limits descriptor decides, and nothing that comes after it counts.
pub proof fn lemma_first_range_limits_decide(
    descriptors: Seq<DisplayDescriptor>,
    i: int,
    at: int,
)
    requires
        0 <= i <= at < descriptors.len(),
        forall|k: int| i <= k < at ==> (#[trigger] descriptors[k]) is Other,
        descriptors[at] is RangeLimits,
    ensures
        descriptors[at] == DisplayDescriptor::RangeLimits(None) ==> minimum_rate_from(
            descriptors,
            i,
        ) == Err::<Option<u32>, PropError>(PropError::InvalidRangeLimits),
        descriptors[at] matches DisplayDescriptor::RangeLimits(Some(rate)) ==> minimum_rate_from(
            descriptors,
            i,
        ) == Ok::<Option<u32>, PropError>(Some(rate as u32)),
    decreases at - i,
{
    if i < at {
        assert(descriptors[i] is Other);
        lemma_first_range_limits_decide(descriptors, i + 1, at);
    }
}

/// An EDID without such a descriptor gives no rate, which is no error.
pub proof fn lemma_no_range_limits(descriptors: Seq<DisplayDescriptor>, i: int)
    requires
        0 <= i,
        forall|k: int| i <= k < descriptors.len() ==> (#[trigger] descriptors[k]) is Other,
    ensures
        minimum_rate_from(descriptors, i) == Ok::<Option<u32>, PropError>(None),
    decreases descriptors.len() - i,
{
    if i < descriptors.len() {
        assert(descriptors[i] is Other);
        lemma_no_range_limits(descriptors, i + 1);
    }
}

// ---------------------------------------------------------------------------
// Laws of the modes
// ---------------------------------------------------------------------------

/// A plain mode shows as many frames in a thousand seconds as its clock has time for,
/// rounded to the nearest: the pixels of that many frames, half a frame off at most, are
/// those of the clock.
pub proof fn lemma_plain_rate_is_nearest(mode: Mode)
    requires
        mode.htotal > 0,
        mode.vtotal > 0,
        !mode.interlace,
        !mode.double_scan,
        mode.vscan <= 1,
    ensures
        ({
            let (r, h, v) = (
                refresh_millihertz(mode) as int,
                mode.htotal as int,
                mode.vtotal as int,
            );
            let pixels = mode.clock * 1000000;
            &&& h * (r * v - v / 2) <= pixels
            &&& pixels < h * (r * v + v - v / 2)
        }),
{
    let (h, v) = (mode.htotal as int, mode.vtotal as int);
    let pixels = mode.clock * 1000000;
    let lines = pixels / h;
    vstd::arithmetic::div_mod::lemma_fundamental_div_mod(pixels, h);
    vstd::arithmetic::div_mod::lemma_mod_bound(pixels, h);
    vstd::arithmetic::div_mod::lemma_div_pos_is_pos(pixels, h);
    let r = (lines + v / 2) / v;
    vstd::arithmetic::div_mod::lemma_fundamental_div_mod(lines + v / 2, v);
    vstd::arithmetic::div_mod::lemma_mod_bound(lines + v / 2, v);
    vstd::arithmetic::div_mod::lemma_div_pos_is_pos(lines + v / 2, v);
    assert(refresh_millihertz(mode) == r);
    assert(v * r == r * v) by (nonlinear_arith);
    let (low, high) = (r * v - v / 2, r * v + v - v / 2);
    assert(low <= lines < high);
    assert(h * low <= h * lines) by (nonlinear_arith)
        requires
            low <= lines,
            0 < h,
    ;
    assert(h * (lines + 1) <= h * high) by (nonlinear_arith)
        requires
            lines + 1 <= high,
            0 < h,
    ;
    assert(h * (lines + 1) == h * lines + h) by (nonlinear_arith);
}

/// Interlacing doubles the rate, double scan halves it, the two cancel out, and repeated
/// lines divide it.
pub proof fn lemma_scan_modes_scale_the_rate(mode: Mode)
    requires
        mode.htotal > 0,
        mode.vtotal > 0,
    ensures
        ({
            let plain = Mode { interlace: false, double_scan: false, vscan: 1, ..mode };
            let r = refresh_millihertz(plain) as int;
            let halved = refresh_millihertz((Mode { double_scan: true, ..plain })) as int;
            let single = refresh_millihertz((Mode { vscan: 1, ..mode })) as int;
            let repeated = refresh_millihertz(mode) as int;
            &&& refresh_millihertz((Mode { interlace: true, ..plain })) == 2 * r
            &&& 2 * halved <= r < 2 * halved + 2
            &&& refresh_millihertz((Mode { interlace: true, double_scan: true, ..plain })) == r
            &&& mode.vscan > 1 ==> mode.vscan * repeated <= single < mode.vscan * (repeated + 1)
            &&& mode.vscan <= 1 ==> repeated == single
        }),
{
    let (h, v) = (mode.htotal as int, mode.vtotal as int);
    let pixels = mode.clock * 1000000;
    vstd::arithmetic::div_mod::lemma_div_pos_is_pos(pixels, h);
    let lines = pixels / h;
    vstd::arithmetic::div_mod::lemma_div_pos_is_pos(lines + v / 2, v);
    let plain = Mode { interlace: false, double_scan: false, vscan: 1, ..mode };
    let r = (lines + v / 2) / v;
    assert(refresh_millihertz(plain) == r);
    let single = refresh_millihertz(Mode { vscan: 1, ..mode }) as int;
    if mode.vscan > 1 {
        let n = mode.vscan as int;
        assert(refresh_millihertz(mode) == single / n);
        vstd::arithmetic::div_mod::lemma_fundamental_div_mod(single, n);
        vstd::arithmetic::div_mod::lemma_mod_bound(single, n);
        let q = single / n;
        assert(n * (q + 1) == n * q + n) by (nonlinear_arith);
    }
}

/// The names of the kinds of connectors, letter by letter.
pub proof fn lemma_interface_names()
    ensures
        interface_short_name(Interface::Unknown) == seq!['U', 'n', 'k', 'n', 'o', 'w', 'n'],
        interface_short_name(Interface::VGA) == seq!['V', 'G', 'A'],
        interface_short_name(Interface::DVII) == seq!['D', 'V', 'I', '-', 'I'],
        interface_short_name(Interface::DVID) == seq!['D', 'V', 'I', '-', 'D'],
        interface_short_name(Interface::DVIA) == seq!['D', 'V', 'I', '-', 'A'],
        interface_short_name(Interface::Composite) == seq![
            'C',
            'o',
            'm',
            'p',
            'o',
            's',
            'i',
            't',
            'e',
        ],
        interface_short_name(Interface::SVideo) == seq!['S', '-', 'V', 'I', 'D', 'E', 'O'],
        interface_short_name(Interface::LVDS) == seq!['L', 'V', 'D', 'S'],
        interface_short_name(Interface::Component) == seq![
            'C',
            'o',
            'm',
            'p',
            'o',
            'n',
            'e',
            'n',
            't',
        ],
        interface_short_name(Interface::NinePinDIN) == seq![
            'N',
            'i',
            'n',
            'e',
            'P',
            'i',
            'n',
            'D',
            'I',
            'N',
        ],
        interface_short_name(Interface::DisplayPort) == seq!['D', 'P'],
        interface_short_name(Interface::HDMIA) == seq!['H', 'D', 'M', 'I', '-', 'A'],
        interface_short_name(Interface::HDMIB) == seq!['H', 'D', 'M', 'I', '-', 'B'],
        interface_short_name(Interface::TV) == seq!['T', 'V'],
        interface_short_name(Interface::EmbeddedDisplayPort) == seq!['e', 'D', 'P'],
        interface_short_name(Interface::Virtual) == seq!['V', 'i', 'r', 't', 'u', 'a', 'l'],
        interface_short_name(Interface::DSI) == seq!['D', 'S', 'I'],
        interface_short_name(Interface::DPI) == seq!['D', 'P', 'I'],
        interface_short_name(Interface::Writeback) == seq![
            'W',
            'r',
            'i',
            't',
            'e',
            'b',
            'a',
            'c',
            'k',
        ],
        interface_short_name(Interface::SPI) == seq!['S', 'P', 'I'],
        interface_short_name(Interface::USB) == seq!['U', 'S', 'B'],
{
    reveal_strlit("Unknown");
    reveal_strlit("VGA");
    reveal_strlit("DVI-I");
    reveal_strlit("DVI-D");
    reveal_strlit("DVI-A");
    reveal_strlit("Composite");
    reveal_strlit("S-VIDEO");
    reveal_strlit("LVDS");
    reveal_strlit("Component");
    reveal_strlit("NinePinDIN");
    reveal_strlit("DP");
    reveal_strlit("HDMI-A");
    reveal_strlit("HDMI-B");
    reveal_strlit("TV");
    reveal_strlit("eDP");
    reveal_strlit("Virtual");
    reveal_strlit("DSI");
    reveal_strlit("DPI");
    reveal_strlit("Writeback");
    reveal_strlit("SPI");
    reveal_strlit("USB");
    assert(interface_short_name(Interface::Unknown) =~= seq!['U', 'n', 'k', 'n', 'o', 'w', 'n']);
    assert(interface_short_name(Interface::VGA) =~= seq!['V', 'G', 'A']);
    assert(interface_short_name(Interface::DVII) =~= seq!['D', 'V', 'I', '-', 'I']);
    assert(interface_short_name(Interface::DVID) =~= seq!['D', 'V', 'I', '-', 'D']);
    assert(interface_short_name(Interface::DVIA) =~= seq!['D', 'V', 'I', '-', 'A']);
    assert(interface_short_name(Interface::Composite) =~= seq![
        'C',
        'o',
        'm',
        'p',
        'o',
        's',
        'i',
        't',
        'e',
    ]);
    assert(interface_short_name(Interface::SVideo) =~= seq!['S', '-', 'V', 'I', 'D', 'E', 'O']);
    assert(interface_short_name(Interface::LVDS) =~= seq!['L', 'V', 'D', 'S']);
    assert(interface_short_name(Interface::Component) =~= seq![
        'C',
        'o',
        'm',
        'p',
        'o',
        'n',
        'e',
        'n',
        't',
    ]);
    assert(interface_short_name(Interface::NinePinDIN) =~= seq![
        'N',
        'i',
        'n',
        'e',
        'P',
        'i',
        'n',
        'D',
        'I',
        'N',
    ]);
    assert(interface_short_name(Interface::DisplayPort) =~= seq!['D', 'P']);
    assert(interface_short_name(Interface::HDMIA) =~= seq!['H', 'D', 'M', 'I', '-', 'A']);
    assert(interface_short_name(Interface::HDMIB) =~= seq!['H', 'D', 'M', 'I', '-', 'B']);
    assert(interface_short_name(Interface::TV) =~= seq!['T', 'V']);
    assert(interface_short_name(Interface::EmbeddedDisplayPort) =~= seq!['e', 'D', 'P']);
    assert(interface_short_name(Interface::Virtual) =~= seq!['V', 'i', 'r', 't', 'u', 'a', 'l']);
    assert(interface_short_name(Interface::DSI) =~= seq!['D', 'S', 'I']);
    assert(interface_short_name(Interface::DPI) =~= seq!['D', 'P', 'I']);
    assert(interface_short_name(Interface::Writeback) =~= seq![
        'W',
        'r',
        'i',
        't',
        'e',
        'b',
        'a',
        'c',
        'k',
    ]);
    assert(interface_short_name(Interface::SPI) =~= seq!['S', 'P', 'I']);
    assert(interface_short_name(Interface::USB) =~= seq!['U', 'S', 'B']);
}

// ---------------------------------------------------------------------------
// Laws of the blobs
// ---------------------------------------------------------------------------

/// The primaries of a container are those of its standard, doubled from units of 0.00002
/// to units of 0.00001.
pub proof fn lemma_primaries_of_containers(container: HdrColorContainer)
    ensures
        container.chromaticities().len() == 6,
        container is Bt2020 ==> {
            let xy = container.chromaticities();
            &&& 2 * xy[0] == 70800 && 2 * xy[1] == 29200
            &&& 2 * xy[2] == 17000 && 2 * xy[3] == 79700
            &&& 2 * xy[4] == 13100 && 2 * xy[5] == 4600
        },
        container is DciP3 ==> {
            let xy = container.chromaticities();
            &&& 2 * xy[0] == 68000 && 2 * xy[1] == 32000
            &&& 2 * xy[2] == 26500 && 2 * xy[3] == 69000
            &&& 2 * xy[4] == 15000 && 2 * xy[5] == 6000
        },
        container is Bt2020 ==> container.variant_name() == "BT2020_RGB"@,
        container is DciP3 ==> container.variant_name() == "DCI-P3_RGB_D65"@,
{
}

/// A 16-bit number is read back from its bytes, low byte first.
pub proof fn lemma_half_words_are_read_back(x: u16)
    ensures
        le16(x).len() == 2,
        le16(x)[0] + 256 * le16(x)[1] == x,
{
}

proof fn lemma_half_words_add_up(y: int)
    requires
        0 <= y < 0x1_0000_0000_0000_0000,
    ensures
        0 <= y / 0x1_0000_0000_0000 < 0x1_0000,
        y % 0x1_0000 + 0x1_0000 * (y / 0x1_0000 % 0x1_0000) + 0x1_0000_0000 * (y / 0x1_0000_0000
            % 0x1_0000) + 0x1_0000_0000_0000 * (y / 0x1_0000_0000_0000) == y,
{
    let (p, q, r) = (y / 0x1_0000, y / 0x1_0000_0000, y / 0x1_0000_0000_0000);
    vstd::arithmetic::div_mod::lemma_div_denominator(y, 0x1_0000, 0x1_0000);
    vstd::arithmetic::div_mod::lemma_div_denominator(y, 0x1_0000_0000, 0x1_0000);
    assert(q == p / 0x1_0000);
    assert(r == q / 0x1_0000);
    vstd::arithmetic::div_mod::lemma_fundamental_div_mod(y, 0x1_0000);
    vstd::arithmetic::div_mod::lemma_fundamental_div_mod(p, 0x1_0000);
    vstd::arithmetic::div_mod::lemma_fundamental_div_mod(q, 0x1_0000);
}

proof fn lemma_half_words_of(y: u64) -> (halves: (u16, u16, u16, u16))
    ensures
        le64(y) == le16(halves.0) + le16(halves.1) + le16(halves.2) + le16(halves.3),
        halves.0 + 0x1_0000 * halves.1 + 0x1_0000_0000 * halves.2 + 0x1_0000_0000_0000 * halves.3
            == y,
{
    lemma_half_words_add_up(y as int);
    let (a, b, c, d) = (
        (y % 0x1_0000) as u16,
        (y / 0x1_0000 % 0x1_0000) as u16,
        (y / 0x1_0000_0000 % 0x1_0000) as u16,
        (y / 0x1_0000_0000_0000) as u16,
    );
    assert(a == y as int % 0x1_0000);
    assert(b == y as int / 0x1_0000 % 0x1_0000);
    assert(c == y as int / 0x1_0000_0000 % 0x1_0000);
    assert(d == y as int / 0x1_0000_0000_0000);
    (a, b, c, d)
}

/// A 64-bit number is read back from its bytes, low byte first.
pub proof fn lemma_words_are_read_back(y: u64)
    ensures
        le64(y).len() == 8,
        le64(y)[0] + 256 * le64(y)[1] + 0x1_0000 * le64(y)[2] + 0x100_0000 * le64(y)[3]
            + 0x1_0000_0000 * le64(y)[4] + 0x100_0000_0000 * le64(y)[5] + 0x1_0000_0000_0000
            * le64(y)[6] + 0x100_0000_0000_0000 * le64(y)[7] == y,
{
    let halves = lemma_half_words_of(y);
    let (a, b, c, d) = (le16(halves.0), le16(halves.1), le16(halves.2), le16(halves.3));
    lemma_half_words_are_read_back(halves.0);
    lemma_half_words_are_read_back(halves.1);
    lemma_half_words_are_read_back(halves.2);
    lemma_half_words_are_read_back(halves.3);
    lemma_joined(a, b, c, d);
}

proof fn lemma_joined(a: Seq<u8>, b: Seq<u8>, c: Seq<u8>, d: Seq<u8>)
    requires
        a.len() == 2,
        b.len() == 2,
        c.len() == 2,
        d.len() == 2,
    ensures
        ({
            let all = a + b + c + d;
            &&& all.len() == 8
            &&& all[0] == a[0] && all[1] == a[1] && all[2] == b[0] && all[3] == b[1]
            &&& all[4] == c[0] && all[5] == c[1] && all[6] == d[0] && all[7] == d[1]
        }),
{
}

proof fn lemma_le16_all_place(numbers: Seq<u16>, i: int)
    requires
        0 <= i < numbers.len(),
    ensures
        le16_all(numbers).len() == 2 * numbers.len(),
        le16_all(numbers)[2 * i] + 256 * le16_all(numbers)[2 * i + 1] == numbers[i],
    decreases numbers.len(),
{
    let less = numbers.drop_last();
    lemma_half_words_are_read_back(numbers.last());
    if less.len() > 0 {
        lemma_le16_all_place(
            less,
            if i < less.len() {
                i
            } else {
                0
            },
        );
    } else {
        assert(le16_all(less).len() == 0);
    }
}

/// Each field of the metadata stands at its place, low byte first: nothing but the type of
/// the curve in front, which is PQ, the primaries from the sixth byte on, the D65 white
/// point, the range of the panel, and the light levels.
pub proof fn lemma_metadata_layout(lum: HdrMasteringLuminance, container: HdrColorContainer, i: int)
    requires
        0 <= i < 6,
    ensures
        ({
            let bytes = hdr_metadata_bytes(lum, container);
            &&& bytes.len() == 30
            &&& bytes[0] == 0 && bytes[1] == 0 && bytes[2] == 0 && bytes[3] == 0
            &&& bytes[4] == 2 && bytes[5] == 0
            &&& bytes[6 + 2 * i] + 256 * bytes[7 + 2 * i] == container.chromaticities()[i]
            &&& bytes[18] + 256 * bytes[19] == 15635
            &&& bytes[20] + 256 * bytes[21] == 16450
            &&& bytes[22] + 256 * bytes[23] == lum.max_lum_nits
            &&& bytes[24] + 256 * bytes[25] == lum.min_lum_units
            &&& bytes[26] + 256 * bytes[27] == lum.max_cll_nits
            &&& bytes[28] + 256 * bytes[29] == lum.max_fall_nits
        }),
{
    let all = container.chromaticities() + seq![
        15635u16,
        16450,
        lum.max_lum_nits,
        lum.min_lum_units,
        lum.max_cll_nits,
        lum.max_fall_nits,
    ];
    lemma_primaries_of_containers(container);
    lemma_le16_all_place(all, i);
    lemma_le16_all_place(all, 6);
    lemma_le16_all_place(all, 7);
    lemma_le16_all_place(all, 8);
    lemma_le16_all_place(all, 9);
    lemma_le16_all_place(all, 10);
    lemma_le16_all_place(all, 11);
    let bytes = hdr_metadata_bytes(lum, container);
    assert forall|k: int| 6 <= k < 30 implies #[trigger] bytes[k] == le16_all(all)[k - 6] by {}
    assert(all[6] == 15635 && all[7] == 16450);
    assert(all[i] == container.chromaticities()[i]);
}

/// Each channel of an entry is read back from its place in the table: red, green and blue,
/// two bytes each, and two to fill up.
pub proof fn lemma_lut_entries_are_read_back(entries: Seq<DrmColorLutEntry>, i: int)
    requires
        0 <= i < entries.len(),
    ensures
        ({
            let bytes = lut_bytes(entries);
            &&& bytes.len() == 8 * entries.len()
            &&& bytes[8 * i] + 256 * bytes[8 * i + 1] == entries[i].red
            &&& bytes[8 * i + 2] + 256 * bytes[8 * i + 3] == entries[i].green
            &&& bytes[8 * i + 4] + 256 * bytes[8 * i + 5] == entries[i].blue
            &&& bytes[8 * i + 6] + 256 * bytes[8 * i + 7] == entries[i].reserved
        }),
{
    let (bytes, entry) = (lut_bytes(entries), entries[i]);
    lemma_lut_bytes_layout(entries, i);
    lemma_half_words_are_read_back(entry.red);
    lemma_half_words_are_read_back(entry.green);
    lemma_half_words_are_read_back(entry.blue);
    lemma_half_words_are_read_back(entry.reserved);
    let place = bytes.subrange(8 * i, 8 * i + 8);
    assert(place == lut_entry_bytes(entry));
    assert forall|k: int| 0 <= k < 8 implies bytes[8 * i + k] == #[trigger] place[k] by {}
    assert(place[0] == le16(entry.red)[0] && place[1] == le16(entry.red)[1]);
    assert(place[2] == le16(entry.green)[0] && place[3] == le16(entry.green)[1]);
    assert(place[4] == le16(entry.blue)[0] && place[5] == le16(entry.blue)[1]);
    assert(place[6] == le16(entry.reserved)[0] && place[7] == le16(entry.reserved)[1]);
}

/// A matrix takes eight bytes for each entry, and each entry stands at its place.
pub proof fn lemma_ctm_bytes_layout(numbers: Seq<u64>, i: int)
    requires
        0 <= i < numbers.len(),
    ensures
        le64_all(numbers).len() == 8 * numbers.len(),
        le64_all(numbers).subrange(8 * i, 8 * i + 8) == le64(numbers[i]),
    decreases numbers.len(),
{
    let less = numbers.drop_last();
    if less.len() > 0 {
        lemma_ctm_bytes_layout(
            less,
            if i < less.len() {
                i
            } else {
                0
            },
        );
    } else {
        assert(le64_all(less).len() == 0);
    }
    lemma_words_are_read_back(numbers.last());
    if i < less.len() {
        assert(le64_all(numbers).subrange(8 * i, 8 * i + 8) =~= le64_all(less).subrange(
            8 * i,
            8 * i + 8,
        ));
    } else {
        assert(le64_all(numbers).subrange(8 * i, 8 * i + 8) =~= le64(numbers[i]));
    }
}

} // verus!
