//! Color transforms and clipping of client surfaces.
use vstd::prelude::*;

use crate::color_management::{
    ImageDescription, NamedPrimaries, NamedTransferFunction, PrimariesDef, TransferFunctionDef,
};
use crate::geometry;
use crate::geometry::{fine_in_range, subtract_rects_many, FineRect, Rect};
use crate::text;
use crate::tf;

verus! {

// ---------------------------------------------------------------------------
// Scene-linear compositing
// ---------------------------------------------------------------------------

/// Whether the value of `COSMIC_HDR_PATH_B` turns scene-linear compositing on.
pub open spec fn path_b_flag(value: Option<Seq<char>>) -> bool {
    value == Some("1"@) || value == Some("true"@) || value == Some("TRUE"@)
}

/// Whether scene-linear compositing is on, by the value of `COSMIC_HDR_PATH_B`.
pub fn path_b_enabled(value: Option<&str>) -> (enabled: bool)
    ensures
        enabled == path_b_flag(
            match value {
                Some(value) => Some(value@),
                None => None,
            },
        ),
{
    match value {
        Some(value) => text::same_text(value, "1") || text::same_text(value, "true")
            || text::same_text(value, "TRUE"),
        None => false,
    }
}

/// What a render frame is drawn for: that the output is in HDR mode, and its
/// reference white in cd/m². There is none outside of a render frame, nor in one for
/// an output that is not in HDR mode.
#[derive(Debug, Clone, Copy, PartialEq, Eq)]
pub struct RenderHdrContext {
    pub current: Option<(bool, u32)>,
}

impl RenderHdrContext {
    /// The reference white of a frame that is drawn for an HDR output.
    pub open spec fn hdr_white(self) -> Option<u32> {
        match self.current {
            Some((true, ref_white_nits)) => Some(ref_white_nits),
            _ => None,
        }
    }

    pub fn new() -> (context: Self)
        ensures
            context.current is None,
    {
        RenderHdrContext { current: None }
    }
}

/// Marks the start of a render frame.
pub fn set_render_hdr_context(context: &mut RenderHdrContext, enabled: bool, ref_white_nits: u32)
    ensures
        final(context).current == (if enabled {
            Some((true, ref_white_nits))
        } else {
            None
        }),
{
    context.current = if enabled {
        Some((true, ref_white_nits))
    } else {
        None
    };
}

/// Marks the end of a render frame.
pub fn clear_render_hdr_context(context: &mut RenderHdrContext)
    ensures
        final(context).current is None,
{
    context.current = None;
}

/// Whether the current render frame is drawn for an HDR output.
pub fn render_hdr_active(context: &RenderHdrContext) -> (active: bool)
    ensures
        active == context.hdr_white() is Some,
{
    match context.current {
        Some((enabled, _)) => enabled,
        None => false,
    }
}

/// The reference white by which sRGB colors that shaders draw with are converted
/// to linear light; none where they are left as they are.
pub fn linearize_white(path_b: bool, context: &RenderHdrContext) -> (white: Option<u32>)
    ensures
        white == (if path_b {
            context.hdr_white()
        } else {
            None
        }),
{
    if !path_b {
        return None;
    }
    match context.current {
        Some((true, ref_white_nits)) => Some(ref_white_nits),
        _ => None,
    }
}

// ---------------------------------------------------------------------------
// Color transforms
// ---------------------------------------------------------------------------

/// How the shader brings a surface into the space that is composited in.
#[derive(Debug, Clone, Copy, PartialEq, Eq)]
pub struct ColorTransform {
    pub tf_id: i32,
    /// In units of `1 / 10000`.
    pub ref_white_scale: u32,
    /// Column by column, in units of `10^-9`.
    pub primaries_matrix: [i32; 9],
}

/// The transfer function of a description; sRGB where it is not known.
pub open spec fn transfer_function_id(description: Option<ImageDescription>) -> i32 {
    match description {
        None => tf::SRGB,
        Some(description) => match description.transfer_function {
            Some(TransferFunctionDef::Named(function)) => match function {
                NamedTransferFunction::Srgb => tf::SRGB,
                NamedTransferFunction::Bt1886 => tf::BT1886,
                NamedTransferFunction::Gamma22 => tf::GAMMA22,
                NamedTransferFunction::St2084Pq => tf::ST2084_PQ,
                NamedTransferFunction::Hlg => tf::HLG,
                NamedTransferFunction::ExtLinear => tf::EXT_LINEAR,
                NamedTransferFunction::Other => tf::SRGB,
            },
            _ => tf::SRGB,
        },
    }
}

/// The primaries of a description; those of sRGB where they have no name.
pub open spec fn source_primaries(description: Option<ImageDescription>) -> NamedPrimaries {
    match description {
        Some(description) => match description.primaries {
            Some(PrimariesDef::Named(primaries)) => primaries,
            _ => NamedPrimaries::Srgb,
        },
        None => NamedPrimaries::Srgb,
    }
}

pub open spec fn identity_matrix() -> Seq<i32> {
    seq![1000000000i32, 0, 0, 0, 1000000000, 0, 0, 0, 1000000000]
}

pub open spec fn bt709_to_bt2020() -> Seq<i32> {
    seq![627403896i32, 69097289, 16391439, 329283038, 919540395, 88013308, 43313066, 11362315, 895595253]
}

/// For DCI-P3 and Display-P3, which share their primaries.
pub open spec fn p3_to_bt2020() -> Seq<i32> {
    seq![753833151i32, 45744140, 1210226, 198597369, 941777862, 17601327, 47569481, 12477999, 981188447]
}

pub open spec fn bt2020_to_bt709() -> Seq<i32> {
    seq![1660491386i32, (-124550414) as i32, (-18150763) as i32, (-587641138) as i32, 1132899743, (-100578992) as i32, (-72850248) as i32, (-8349329) as i32, 1118729755]
}

pub open spec fn p3_to_bt709() -> Seq<i32> {
    seq![1224940180i32, (-42056955) as i32, (-19637555) as i32, (-224940180) as i32, 1042056955, (-78636045) as i32, 0, 0, 1098273600]
}

/// The matrix from the source's primaries to those that are composited in:
/// BT.2020 for an HDR output, BT.709 otherwise. Primaries that are not known are
/// left as they are.
pub open spec fn primaries_conversion(source: NamedPrimaries, composite_is_bt2020: bool) -> Seq<
    i32,
> {
    match source {
        NamedPrimaries::Srgb => if composite_is_bt2020 {
            bt709_to_bt2020()
        } else {
            identity_matrix()
        },
        NamedPrimaries::Bt2020 => if composite_is_bt2020 {
            identity_matrix()
        } else {
            bt2020_to_bt709()
        },
        NamedPrimaries::DciP3 | NamedPrimaries::DisplayP3 => if composite_is_bt2020 {
            p3_to_bt2020()
        } else {
            p3_to_bt709()
        },
        NamedPrimaries::Other => identity_matrix(),
    }
}

fn tf_id_for_description(description: Option<&ImageDescription>) -> (id: i32)
    ensures
        id == transfer_function_id(
            match description {
                Some(description) => Some(*description),
                None => None,
            },
        ),
{
    match description {
        None => tf::SRGB,
        Some(description) => match description.transfer_function {
            Some(TransferFunctionDef::Named(function)) => match function {
                NamedTransferFunction::Srgb => tf::SRGB,
                NamedTransferFunction::Bt1886 => tf::BT1886,
                NamedTransferFunction::Gamma22 => tf::GAMMA22,
                NamedTransferFunction::St2084Pq => tf::ST2084_PQ,
                NamedTransferFunction::Hlg => tf::HLG,
                NamedTransferFunction::ExtLinear => tf::EXT_LINEAR,
                NamedTransferFunction::Other => tf::SRGB,
            },
            _ => tf::SRGB,
        },
    }
}

fn primaries_matrix_for_description(
    description: Option<&ImageDescription>,
    composite_is_bt2020: bool,
) -> (matrix: [i32; 9])
    ensures
        matrix@ == primaries_conversion(
            source_primaries(
                match description {
                    Some(description) => Some(*description),
                    None => None,
                },
            ),
            composite_is_bt2020,
        ),
{
    let source: NamedPrimaries = match description {
        Some(description) => match description.primaries {
            Some(PrimariesDef::Named(primaries)) => primaries,
            _ => NamedPrimaries::Srgb,
        },
        None => NamedPrimaries::Srgb,
    };
    let identity: [i32; 9] = [1000000000, 0, 0, 0, 1000000000, 0, 0, 0, 1000000000];
    let matrix: [i32; 9] = match source {
        NamedPrimaries::Srgb => if composite_is_bt2020 {
            [627403896, 69097289, 16391439, 329283038, 919540395, 88013308, 43313066, 11362315, 895595253]
        } else {
            identity
        },
        NamedPrimaries::Bt2020 => if composite_is_bt2020 {
            identity
        } else {
            [1660491386, -124550414, -18150763, -587641138, 1132899743, -100578992, -72850248, -8349329, 1118729755]
        },
        NamedPrimaries::DciP3 | NamedPrimaries::DisplayP3 => if composite_is_bt2020 {
            [753833151, 45744140, 1210226, 198597369, 941777862, 17601327, 47569481, 12477999, 981188447]
        } else {
            [1224940180, -42056955, -19637555, -224940180, 1042056955, -78636045, 0, 0, 1098273600]
        },
        NamedPrimaries::Other => identity,
    };
    proof {
        assert(matrix@ =~= primaries_conversion(source, composite_is_bt2020));
    }
    matrix
}

/// The transform that leaves a surface as it is.
pub open spec fn is_passthrough(transform: ColorTransform) -> bool {
    &&& transform.tf_id == tf::PASSTHROUGH
    &&& transform.ref_white_scale == 10000
    &&& transform.primaries_matrix@ == identity_matrix()
}

/// The transform for a surface with the given description.
pub open spec fn is_transform_for(
    transform: ColorTransform,
    description: Option<ImageDescription>,
    output_is_hdr: bool,
    ref_white_nits: u32,
) -> bool {
    &&& transform.tf_id == transfer_function_id(description)
    &&& transform.ref_white_scale == (if output_is_hdr {
        ref_white_nits
    } else {
        10000
    })
    &&& transform.primaries_matrix@ == primaries_conversion(
        source_primaries(description),
        output_is_hdr,
    )
}

impl ColorTransform {
    /// The transform that leaves a surface as it is.
    pub fn passthrough() -> (transform: Self)
        ensures
            is_passthrough(transform),
    {
        let matrix: [i32; 9] = [1000000000, 0, 0, 0, 1000000000, 0, 0, 0, 1000000000];
        assert(matrix@ =~= identity_matrix());
        ColorTransform {
            tf_id: tf::PASSTHROUGH,
            ref_white_scale: 10000,
            primaries_matrix: matrix,
        }
    }

    /// The transform for a surface. Without a description its content is taken to
    /// be sRGB. On an HDR output white is placed at the reference white.
    pub fn for_surface(
        surface_description: Option<&ImageDescription>,
        output_is_hdr: bool,
        ref_white_nits: u32,
    ) -> (transform: Self)
        ensures
            is_transform_for(
                transform,
                match surface_description {
                    Some(description) => Some(*description),
                    None => None,
                },
                output_is_hdr,
                ref_white_nits,
            ),
    {
        ColorTransform {
            tf_id: tf_id_for_description(surface_description),
            ref_white_scale: if output_is_hdr {
                ref_white_nits
            } else {
                10000
            },
            primaries_matrix: primaries_matrix_for_description(surface_description, output_is_hdr),
        }
    }

    /// The transform for surfaces in the current render frame: that of sRGB
    /// content in a scene-linear HDR frame, and none otherwise.
    pub fn for_current_frame(path_b: bool, context: &RenderHdrContext) -> (transform: Self)
        ensures
            match (path_b, context.hdr_white()) {
                (true, Some(ref_white_nits)) => is_transform_for(
                    transform,
                    None,
                    true,
                    ref_white_nits,
                ),
                _ => is_passthrough(transform),
            },
    {
        match linearize_white(path_b, context) {
            Some(ref_white_nits) => ColorTransform::for_surface(None, true, ref_white_nits),
            None => ColorTransform::passthrough(),
        }
    }
}

/// White stays white under every conversion: each row of each matrix sums to one,
/// up to the last digit.
pub proof fn lemma_conversions_keep_white(
    source: NamedPrimaries,
    composite_is_bt2020: bool,
    row: int,
)
    requires
        0 <= row < 3,
    ensures
        ({
            let m = primaries_conversion(source, composite_is_bt2020);
            999999999 <= m[row] + m[row + 3] + m[row + 6] <= 1000000001
        }),
{
    assert(row == 0 || row == 1 || row == 2);
}

/// Content that already has the primaries that are composited in is not
/// converted.
pub proof fn lemma_matching_primaries_are_kept()
    ensures
        primaries_conversion(NamedPrimaries::Bt2020, true) == identity_matrix(),
        primaries_conversion(NamedPrimaries::Srgb, false) == identity_matrix(),
{
}

/// The entry of the product of two matrices, in units of `10^-18`.
pub open spec fn product_entry(a: Seq<i32>, b: Seq<i32>, r: int, c: int) -> int {
    a[r] * b[3 * c] + a[r + 3] * b[3 * c + 1] + a[r + 6] * b[3 * c + 2]
}

/// The conversions from BT.709 to BT.2020 and back undo each other, up to a
/// millionth.
pub proof fn lemma_bt2020_round_trip(r: int, c: int)
    requires
        0 <= r < 3,
        0 <= c < 3,
    ensures
        ({
            let exact: int = if r == c {
                1000000000000000000
            } else {
                0
            };
            let entry = product_entry(bt2020_to_bt709(), bt709_to_bt2020(), r, c);
            exact - 1000000000000 <= entry <= exact + 1000000000000
        }),
{
    assert(r == 0 || r == 1 || r == 2);
    assert(c == 0 || c == 1 || c == 2);
}

// ---------------------------------------------------------------------------
// Clipping
// ---------------------------------------------------------------------------

/// The radii of the corners of a window.
#[derive(Debug, Clone, Copy, PartialEq, Eq, Structural)]
pub struct CornerRadii {
    pub top_left: u8,
    pub top_right: u8,
    pub bottom_right: u8,
    pub bottom_left: u8,
}

/// The radii, which are listed as bottom right, top right, bottom left, top left.
pub fn corner_radii(radius: [u8; 4]) -> (corners: CornerRadii)
    ensures
        corners.bottom_right == radius@[0],
        corners.top_right == radius@[1],
        corners.bottom_left == radius@[2],
        corners.top_left == radius@[3],
{
    CornerRadii {
        top_left: radius[3],
        top_right: radius[1],
        bottom_right: radius[0],
        bottom_left: radius[2],
    }
}

/// A square of `radius` pixels at a place.
pub open spec fn corner_at(x: int, y: int, radius: u8) -> FineRect {
    FineRect { x: x as i64, y: y as i64, w: (256 * radius) as i64, h: (256 * radius) as i64 }
}

/// The corners of a window: squares at its top left, top right, bottom right and bottom
/// left. The radii are listed as bottom right, top right, bottom left, top left.
pub open spec fn corner_rects(geo: FineRect, radius: Seq<u8>) -> Seq<FineRect> {
    let right = geo.x + geo.w;
    let bottom = geo.y + geo.h;
    seq![
        corner_at(geo.x as int, geo.y as int, radius[3]),
        corner_at(right - 256 * radius[1], geo.y as int, radius[1]),
        corner_at(right - 256 * radius[0], bottom - 256 * radius[0], radius[0]),
        corner_at(geo.x as int, bottom - 256 * radius[2], radius[2]),
    ]
}

/// The corners of a window with the given radii, in which its content is rounded.
pub fn rounded_corners(geo: FineRect, radius: [u8; 4]) -> (corners: [FineRect; 4])
    requires
        fine_in_range(geo),
    ensures
        corners@ == corner_rects(geo, radius@),
{
    let radii: CornerRadii = corner_radii(radius);
    let top_left: i64 = 256 * radii.top_left as i64;
    let top_right: i64 = 256 * radii.top_right as i64;
    let bottom_right: i64 = 256 * radii.bottom_right as i64;
    let bottom_left: i64 = 256 * radii.bottom_left as i64;
    let corners: [FineRect; 4] = [
        FineRect { x: geo.x, y: geo.y, w: top_left, h: top_left },
        FineRect { x: geo.x + geo.w - top_right, y: geo.y, w: top_right, h: top_right },
        FineRect {
            x: geo.x + geo.w - bottom_right,
            y: geo.y + geo.h - bottom_right,
            w: bottom_right,
            h: bottom_right,
        },
        FineRect { x: geo.x, y: geo.y + geo.h - bottom_left, w: bottom_left, h: bottom_left },
    ];
    assert(corners@ =~= corner_rects(geo, radius@));
    corners
}

/// The corners of a window lie in it, where it is at least as large as the radii; and no
/// two of them overlap, where it is at least twice as large.
pub proof fn lemma_corners_lie_in_the_window(geo: FineRect, radius: Seq<u8>, i: int, j: int)
    requires
        fine_in_range(geo),
        radius.len() == 4,
        0 <= i < j < 4,
    ensures
        (forall|k: int| 0 <= k < 4 ==> 256 * #[trigger] radius[k] <= geo.w && 256 * radius[k]
            <= geo.h) ==> geo.contains_rect(corner_rects(geo, radius)[i]) && geo.contains_rect(
            corner_rects(geo, radius)[j],
        ),
        (forall|k: int| 0 <= k < 4 ==> 512 * #[trigger] radius[k] <= geo.w && 512 * radius[k]
            <= geo.h) ==> {
            let (a, b) = (corner_rects(geo, radius)[i], corner_rects(geo, radius)[j]);
            a.x + a.w <= b.x || b.x + b.w <= a.x || a.y + a.h <= b.y || b.y + b.h <= a.y
        },
{
    assert(i == 0 || i == 1 || i == 2);
    assert(j == 1 || j == 2 || j == 3);
    let (a, b, c, d) = (radius[0], radius[1], radius[2], radius[3]);
}

/// The window without its corners.
pub open spec fn clip_region(geo: Rect, corners: Seq<Rect>) -> Seq<Rect> {
    geometry::subtracted_all(seq![geo], corners, corners.len())
}

/// What of the element lies outside of the window or in one of its corners.
pub open spec fn clipped_parts(elem_geo: Rect, geo: Rect, corners: Seq<Rect>) -> Seq<Rect> {
    let region = clip_region(geo, corners);
    geometry::subtracted_all(seq![elem_geo], region, region.len())
}

/// Whether an element that is clipped to a window with the given corners loses
/// anything.
pub fn will_clip(elem_geo: Rect, geo: Rect, corners: &Vec<Rect>) -> (clips: bool)
    requires
        elem_geo.valid(),
        geo.valid(),
        geometry::all_valid(corners@),
    ensures
        clips == (clipped_parts(elem_geo, geo, corners@).len() > 0),
{
    let mut window: Vec<Rect> = Vec::new();
    window.push(geo);
    assert(window@ =~= seq![geo]);
    let region: Vec<Rect> = subtract_rects_many(window, corners);
    let mut element: Vec<Rect> = Vec::new();
    element.push(elem_geo);
    assert(element@ =~= seq![elem_geo]);
    let rest: Vec<Rect> = subtract_rects_many(element, &region);
    rest.len() > 0
}

/// An element with an area is clipped if and only if one of its pixels lies
/// outside of the window or in one of the corners.
pub proof fn lemma_clips_where_pixels_are_lost(elem_geo: Rect, geo: Rect, corners: Seq<Rect>)
    requires
        elem_geo.valid(),
        !elem_geo.is_empty(),
        geo.valid(),
        geometry::all_valid(corners),
    ensures
        clipped_parts(elem_geo, geo, corners).len() > 0 <==> exists|px: int, py: int|
            #![trigger elem_geo.covers(px, py)]
            elem_geo.covers(px, py) && (!geo.covers(px, py) || geometry::any_covers(
                corners,
                px,
                py,
            )),
{
    let region = clip_region(geo, corners);
    let rest = clipped_parts(elem_geo, geo, corners);
    let window = seq![geo];
    let element = seq![elem_geo];
    assert(geometry::all_valid(window) && geometry::all_valid(element));
    geometry::lemma_subtracted_all(window, corners, corners.len());
    geometry::lemma_subtracted_all(element, region, region.len());
    assert(corners.take(corners.len() as int) =~= corners);
    assert(region.take(region.len() as int) =~= region);
    assert forall|px: int, py: int| #[trigger] geometry::any_covers(rest, px, py)
        == (elem_geo.covers(px, py) && (!geo.covers(px, py) || geometry::any_covers(
        corners,
        px,
        py,
    ))) by {
        assert(geometry::any_covers(element, px, py) == elem_geo.covers(px, py)) by {
            assert(element[0] == elem_geo);
        }
        assert(geometry::any_covers(window, px, py) == geo.covers(px, py)) by {
            assert(window[0] == geo);
        }
        assert(geometry::any_covers(region, px, py) <==> geometry::any_covers(window, px, py)
            && !geometry::any_covers(corners, px, py));
    }
    if rest.len() > 0 {
        let first = rest[0];
        assert(geometry::none_empty(element));
        assert(!first.is_empty());
        assert(first.covers(first.x as int, first.y as int));
        assert(geometry::any_covers(rest, first.x as int, first.y as int));
    }
    if exists|px: int, py: int|
        #![trigger elem_geo.covers(px, py)]
        elem_geo.covers(px, py) && (!geo.covers(px, py) || geometry::any_covers(corners, px, py)) {
        let (px, py) = choose|px: int, py: int|
            #![trigger elem_geo.covers(px, py)]
            elem_geo.covers(px, py) && (!geo.covers(px, py) || geometry::any_covers(
                corners,
                px,
                py,
            ));
        assert(geometry::any_covers(rest, px, py));
    }
}

/// The window's rectangle, relative to an element at `loc`.
pub open spec fn relative(rect: Rect, loc: (i32, i32)) -> Rect {
    Rect { x: (rect.x - loc.0) as i32, y: (rect.y - loc.1) as i32, w: rect.w, h: rect.h }
}

/// The relative rectangle can be named.
pub open spec fn relative_fits(rect: Rect, loc: (i32, i32)) -> bool {
    &&& i32::MIN <= rect.x - loc.0
    &&& i32::MIN <= rect.y - loc.1
    &&& rect.x - loc.0 + rect.w <= i32::MAX
    &&& rect.y - loc.1 + rect.h <= i32::MAX
}

fn shifted(rect: Rect, loc: (i32, i32)) -> (result: Rect)
    requires
        rect.valid(),
        relative_fits(rect, loc),
    ensures
        result == relative(rect, loc),
        result.valid(),
{
    Rect { x: rect.x - loc.0, y: rect.y - loc.1, w: rect.w, h: rect.h }
}

/// What the first `n` rectangles have in common with the window.
pub open spec fn clipped_rects(rects: Seq<Rect>, geo: Rect, n: nat) -> Seq<Rect>
    decreases n,
{
    if n == 0 {
        Seq::empty()
    } else {
        let less = clipped_rects(rects, geo, (n - 1) as nat);
        match rects[n - 1].common(geo) {
            Some(rect) => less.push(rect),
            None => less,
        }
    }
}

fn clip_all(rects: &Vec<Rect>, geo: Rect) -> (clipped: Vec<Rect>)
    requires
        geometry::all_valid(rects@),
        geo.valid(),
    ensures
        clipped@ == clipped_rects(rects@, geo, rects@.len()),
        geometry::all_valid(clipped@),
{
    let mut clipped: Vec<Rect> = Vec::new();
    let mut i: usize = 0;
    while i < rects.len()
        invariant
            i <= rects@.len(),
            geometry::all_valid(rects@),
            geo.valid(),
            clipped@ == clipped_rects(rects@, geo, i as nat),
            geometry::all_valid(clipped@),
        decreases rects@.len() - i,
    {
        match rects[i].intersection(geo) {
            Some(rect) => {
                clipped.push(rect);
            },
            None => {},
        }
        i += 1;
    }
    clipped
}

/// The damage of an element at `elem_loc` that is clipped to a window. Damage is
/// relative to the element.
pub fn damage_since(damage: &Vec<Rect>, geo: Rect, elem_loc: (i32, i32)) -> (clipped: Vec<Rect>)
    requires
        geometry::all_valid(damage@),
        geo.valid(),
        relative_fits(geo, elem_loc),
    ensures
        clipped@ == clipped_rects(damage@, relative(geo, elem_loc), damage@.len()),
{
    clip_all(damage, shifted(geo, elem_loc))
}

/// The corners, relative to the element.
pub open spec fn relative_all(rects: Seq<Rect>, loc: (i32, i32)) -> Seq<Rect> {
    rects.map_values(|rect: Rect| relative(rect, loc))
}

/// The opaque regions of an element at `elem_loc` that is clipped to a window with
/// the given corners. Regions are relative to the element.
pub open spec fn clipped_opaque(
    regions: Seq<Rect>,
    geo: Rect,
    corners: Seq<Rect>,
    elem_loc: (i32, i32),
) -> Seq<Rect> {
    geometry::subtracted_all(
        clipped_rects(regions, relative(geo, elem_loc), regions.len()),
        relative_all(corners, elem_loc),
        corners.len(),
    )
}

/// The opaque regions of an element that is clipped to a window: what of them the
/// window holds, without its corners.
pub fn opaque_regions(
    regions: &Vec<Rect>,
    geo: Rect,
    corners: &Vec<Rect>,
    elem_loc: (i32, i32),
) -> (clipped: Vec<Rect>)
    requires
        geometry::all_valid(regions@),
        geo.valid(),
        relative_fits(geo, elem_loc),
        geometry::all_valid(corners@),
        forall|i: int| 0 <= i < corners@.len() ==> relative_fits(#[trigger] corners@[i], elem_loc),
    ensures
        clipped@ == clipped_opaque(regions@, geo, corners@, elem_loc),
{
    let inside: Vec<Rect> = clip_all(regions, shifted(geo, elem_loc));
    let mut cut: Vec<Rect> = Vec::new();
    let mut i: usize = 0;
    while i < corners.len()
        invariant
            i <= corners@.len(),
            geometry::all_valid(corners@),
            forall|k: int|
                0 <= k < corners@.len() ==> relative_fits(#[trigger] corners@[k], elem_loc),
            cut@.len() == i,
            forall|k: int| 0 <= k < i ==> #[trigger] cut@[k] == relative(corners@[k], elem_loc),
            geometry::all_valid(cut@),
        decreases corners@.len() - i,
    {
        cut.push(shifted(corners[i], elem_loc));
        i += 1;
    }
    assert(cut@ =~= relative_all(corners@, elem_loc));
    subtract_rects_many(inside, &cut)
}

proof fn lemma_clipped_rects(rects: Seq<Rect>, geo: Rect, n: nat)
    requires
        n <= rects.len(),
        geometry::all_valid(rects),
        geo.valid(),
    ensures
        geometry::all_valid(clipped_rects(rects, geo, n)),
        forall|px: int, py: int| #[trigger]
            geometry::any_covers(clipped_rects(rects, geo, n), px, py) <==> geometry::any_covers(
                rects.take(n as int),
                px,
                py,
            ) && geo.covers(px, py),
    decreases n,
{
    if n > 0 {
        let less = (n - 1) as nat;
        lemma_clipped_rects(rects, geo, less);
        let (before, after) = (clipped_rects(rects, geo, less), clipped_rects(rects, geo, n));
        let item = rects[n - 1];
        let (taken, more) = (rects.take(less as int), rects.take(n as int));
        assert forall|px: int, py: int| #[trigger] geometry::any_covers(after, px, py)
            <==> geometry::any_covers(more, px, py) && geo.covers(px, py) by {
            geometry::lemma_common_covers(item, geo, px, py);
            assert(geometry::any_covers(before, px, py) <==> geometry::any_covers(taken, px, py)
                && geo.covers(px, py));
            if geometry::any_covers(after, px, py) {
                let i = choose|i: int| 0 <= i < after.len() && (#[trigger] after[i]).covers(px, py);
                if i < before.len() {
                    assert(before[i] == after[i]);
                    assert(geometry::any_covers(before, px, py));
                    let j = choose|j: int| 0 <= j < taken.len() && (#[trigger] taken[j]).covers(
                        px,
                        py,
                    );
                    assert(more[j] == taken[j]);
                } else {
                    assert(more[less as int] == item);
                }
            }
            if geometry::any_covers(more, px, py) && geo.covers(px, py) {
                let j = choose|j: int| 0 <= j < more.len() && (#[trigger] more[j]).covers(px, py);
                if j < less {
                    assert(taken[j] == more[j]);
                    assert(geometry::any_covers(taken, px, py));
                    assert(geometry::any_covers(before, px, py));
                    let i = choose|i: int| 0 <= i < before.len() && (#[trigger] before[i]).covers(
                        px,
                        py,
                    );
                    assert(after[i] == before[i]);
                } else {
                    assert(item.covers(px, py));
                    assert(after[before.len() as int].covers(px, py));
                }
            }
        }
    }
}

/// Clipping hides what lies under the element only where the element was opaque,
/// inside of the window, and outside of its corners.
pub proof fn lemma_opaque_regions_hold(
    regions: Seq<Rect>,
    geo: Rect,
    corners: Seq<Rect>,
    elem_loc: (i32, i32),
    px: int,
    py: int,
)
    requires
        geometry::all_valid(regions),
        geo.valid(),
        relative_fits(geo, elem_loc),
        geometry::all_valid(corners),
        forall|i: int| 0 <= i < corners.len() ==> relative_fits(#[trigger] corners[i], elem_loc),
    ensures
        geometry::any_covers(clipped_opaque(regions, geo, corners, elem_loc), px, py)
            <==> geometry::any_covers(regions, px, py) && geo.covers(
            px + elem_loc.0,
            py + elem_loc.1,
        ) && !geometry::any_covers(corners, px + elem_loc.0, py + elem_loc.1),
{
    let here = relative(geo, elem_loc);
    let cut = relative_all(corners, elem_loc);
    let inside = clipped_rects(regions, here, regions.len());
    lemma_clipped_rects(regions, here, regions.len());
    assert(regions.take(regions.len() as int) =~= regions);
    assert forall|i: int| 0 <= i < cut.len() implies (#[trigger] cut[i]).valid() by {
        assert(relative_fits(corners[i], elem_loc));
    }
    geometry::lemma_subtracted_all(inside, cut, cut.len());
    assert(cut.take(cut.len() as int) =~= cut);
    assert(geometry::any_covers(inside, px, py) <==> geometry::any_covers(regions, px, py)
        && here.covers(px, py));
    assert(geometry::any_covers(cut, px, py) == geometry::any_covers(
        corners,
        px + elem_loc.0,
        py + elem_loc.1,
    )) by {
        if geometry::any_covers(cut, px, py) {
            let i = choose|i: int| 0 <= i < cut.len() && (#[trigger] cut[i]).covers(px, py);
            assert(relative_fits(corners[i], elem_loc));
            assert(corners[i].covers(px + elem_loc.0, py + elem_loc.1));
        }
        if geometry::any_covers(corners, px + elem_loc.0, py + elem_loc.1) {
            let i = choose|i: int|
                0 <= i < corners.len() && (#[trigger] corners[i]).covers(
                    px + elem_loc.0,
                    py + elem_loc.1,
                );
            assert(relative_fits(corners[i], elem_loc));
            assert(cut[i].covers(px, py));
        }
    }
}

// ---------------------------------------------------------------------------
// Laws of the transforms
// ---------------------------------------------------------------------------

/// Scene-linear compositing is on for exactly three values of the variable.
pub proof fn lemma_values_that_turn_path_b_on(value: Option<Seq<char>>)
    ensures
        path_b_flag(value) <==> value is Some && (value->0 == seq!['1'] || value->0 == seq![
            't',
            'r',
            'u',
            'e',
        ] || value->0 == seq!['T', 'R', 'U', 'E']),
{
    reveal_strlit("1");
    reveal_strlit("true");
    reveal_strlit("TRUE");
    assert("1"@ =~= seq!['1']);
    assert("true"@ =~= seq!['t', 'r', 'u', 'e']);
    assert("TRUE"@ =~= seq!['T', 'R', 'U', 'E']);
}

/// A frame is drawn for HDR exactly if its context says that HDR is on.
pub proof fn lemma_hdr_white_needs_hdr(context: RenderHdrContext)
    ensures
        context.current is None ==> context.hdr_white() is None,
        context.current matches Some((enabled, nits)) ==> context.hdr_white() == (if enabled {
            Some(nits)
        } else {
            None
        }),
{
}

/// Each transfer function that the shader knows has a number of its own. Content without a
/// description, without a named function, or with one that is not known is taken as sRGB,
/// and nothing is ever passed through.
pub proof fn lemma_transfer_functions_are_told_apart(a: ImageDescription, b: ImageDescription)
    ensures
        transfer_function_id(None) == 1,
        1 <= transfer_function_id(Some(a)) <= 6,
        a.transfer_function matches Some(TransferFunctionDef::Named(function)) ==> {
            let id = transfer_function_id(Some(a));
            &&& function is Srgb || function is Other ==> id == 1
            &&& function is Bt1886 <==> id == 2
            &&& function is Gamma22 <==> id == 3
            &&& function is St2084Pq <==> id == 4
            &&& function is Hlg <==> id == 5
            &&& function is ExtLinear <==> id == 6
        },
        !(a.transfer_function matches Some(TransferFunctionDef::Named(_)))
            ==> transfer_function_id(Some(a)) == transfer_function_id(None),
        a.transfer_function == b.transfer_function ==> transfer_function_id(Some(a))
            == transfer_function_id(Some(b)),
{
}

/// Primaries count where they have a name, and are those of sRGB everywhere else.
pub proof fn lemma_named_primaries_count(description: ImageDescription)
    ensures
        source_primaries(None) == NamedPrimaries::Srgb,
        description.primaries matches Some(PrimariesDef::Named(primaries)) ==> source_primaries(
            Some(description),
        ) == primaries,
        !(description.primaries matches Some(PrimariesDef::Named(_))) ==> source_primaries(
            Some(description),
        ) == NamedPrimaries::Srgb,
{
}

/// Both kinds of P3 are converted alike, and unknown primaries are not converted. Whatever
/// is converted is changed.
pub proof fn lemma_conversions_by_primaries(composite_is_bt2020: bool)
    ensures
        primaries_conversion(NamedPrimaries::DciP3, composite_is_bt2020) == primaries_conversion(
            NamedPrimaries::DisplayP3,
            composite_is_bt2020,
        ),
        primaries_conversion(NamedPrimaries::Other, composite_is_bt2020) == identity_matrix(),
        primaries_conversion(NamedPrimaries::DciP3, composite_is_bt2020) != identity_matrix(),
        primaries_conversion(NamedPrimaries::Srgb, true) != identity_matrix(),
        primaries_conversion(NamedPrimaries::Bt2020, false) != identity_matrix(),
        forall|i: int|
            0 <= i < 9 ==> #[trigger] identity_matrix()[i] == if i % 4 == 0 {
                1000000000i32
            } else {
                0i32
            },
{
    assert(primaries_conversion(NamedPrimaries::DciP3, composite_is_bt2020)[0]
        != identity_matrix()[0]);
    assert(primaries_conversion(NamedPrimaries::Srgb, true)[0] != identity_matrix()[0]);
    assert(primaries_conversion(NamedPrimaries::Bt2020, false)[0] != identity_matrix()[0]);
}

/// To convert P3 to BT.2020 and from there to BT.709 is to convert it to BT.709, up to three
/// thousandths.
pub proof fn lemma_conversions_compose(r: int, c: int)
    requires
        0 <= r < 3,
        0 <= c < 3,
    ensures
        ({
            let direct = 1000000000 * primaries_conversion(NamedPrimaries::DciP3, false)[r + 3 * c];
            let entry = product_entry(
                primaries_conversion(NamedPrimaries::Bt2020, false),
                primaries_conversion(NamedPrimaries::DciP3, true),
                r,
                c,
            );
            direct - 3000000000000000 <= entry <= direct + 3000000000000000
        }),
{
    assert(r == 0 || r == 1 || r == 2);
    assert(c == 0 || c == 1 || c == 2);
}

/// The transform of a surface: its own transfer function and primaries, and white at the
/// reference white on an HDR output alone.
pub proof fn lemma_white_is_placed_on_hdr_outputs(
    transform: ColorTransform,
    description: Option<ImageDescription>,
    output_is_hdr: bool,
    ref_white_nits: u32,
)
    requires
        is_transform_for(transform, description, output_is_hdr, ref_white_nits),
    ensures
        output_is_hdr ==> transform.ref_white_scale == ref_white_nits,
        !output_is_hdr ==> transform.ref_white_scale == 10000,
        transform.tf_id == transfer_function_id(description),
        transform.tf_id != 0,
        !is_passthrough(transform),
        description is None && !output_is_hdr ==> transform.primaries_matrix@ == identity_matrix(),
        description is None && output_is_hdr ==> transform.primaries_matrix@ == bt709_to_bt2020(),
{
    if let Some(description) = description {
        lemma_transfer_functions_are_told_apart(description, description);
    }
}

// ---------------------------------------------------------------------------
// Laws of the clipping
// ---------------------------------------------------------------------------

/// Each corner is a square with the side of its radius, and it touches the corner of the
/// window that it is named for: top left, top right, bottom right, bottom left.
pub proof fn lemma_corners_touch_the_window(geo: FineRect, radius: Seq<u8>)
    requires
        fine_in_range(geo),
        radius.len() == 4,
    ensures
        ({
            let corners = corner_rects(geo, radius);
            &&& corners.len() == 4
            &&& forall|i: int|
                0 <= i < 4 ==> (#[trigger] corners[i]).w == corners[i].h
            &&& corners[0].w == 256 * radius[3] && corners[1].w == 256 * radius[1]
            &&& corners[2].w == 256 * radius[0] && corners[3].w == 256 * radius[2]
            &&& corners[0].x == geo.x && corners[3].x == geo.x
            &&& corners[1].x + corners[1].w == geo.x + geo.w
            &&& corners[2].x + corners[2].w == geo.x + geo.w
            &&& corners[0].y == geo.y && corners[1].y == geo.y
            &&& corners[2].y + corners[2].h == geo.y + geo.h
            &&& corners[3].y + corners[3].h == geo.y + geo.h
        }),
{
}

/// Seen from an element, a rectangle holds the same pixels, counted from the element's
/// corner.
pub proof fn lemma_relative_covers(rect: Rect, loc: (i32, i32), px: int, py: int)
    requires
        rect.valid(),
        relative_fits(rect, loc),
    ensures
        relative(rect, loc).covers(px, py) <==> rect.covers(px + loc.0, py + loc.1),
        relative(rect, loc).w == rect.w,
        relative(rect, loc).h == rect.h,
{
}

/// Damage of a clipped element is the damage that lies in the window, no more and no less.
pub proof fn lemma_damage_is_clipped(
    damage: Seq<Rect>,
    geo: Rect,
    elem_loc: (i32, i32),
    px: int,
    py: int,
)
    requires
        geometry::all_valid(damage),
        geo.valid(),
        relative_fits(geo, elem_loc),
    ensures
        geometry::any_covers(
            clipped_rects(damage, relative(geo, elem_loc), damage.len()),
            px,
            py,
        ) <==> geometry::any_covers(damage, px, py) && geo.covers(
            px + elem_loc.0,
            py + elem_loc.1,
        ),
{
    let here = relative(geo, elem_loc);
    lemma_clipped_rects(damage, here, damage.len());
    assert(damage.take(damage.len() as int) =~= damage);
    assert(geometry::any_covers(clipped_rects(damage, here, damage.len()), px, py)
        <==> geometry::any_covers(damage, px, py) && here.covers(px, py));
}

/// The conversions by their rows: red, green and blue of what comes out, each from red,
/// green and blue of the source.
pub proof fn lemma_conversions_by_rows()
    ensures
        ({
            let m = primaries_conversion(NamedPrimaries::Srgb, true);
            &&& m.len() == 9
            &&& m[0] == 627403896 && m[3] == 329283038 && m[6] == 43313066
            &&& m[1] == 69097289 && m[4] == 919540395 && m[7] == 11362315
            &&& m[2] == 16391439 && m[5] == 88013308 && m[8] == 895595253
        }),
        ({
            let m = primaries_conversion(NamedPrimaries::Bt2020, false);
            &&& m.len() == 9
            &&& m[0] == 1660491386 && m[3] == -587641138 && m[6] == -72850248
            &&& m[1] == -124550414 && m[4] == 1132899743 && m[7] == -8349329
            &&& m[2] == -18150763 && m[5] == -100578992 && m[8] == 1118729755
        }),
        ({
            let m = primaries_conversion(NamedPrimaries::DciP3, true);
            &&& m.len() == 9
            &&& m[0] == 753833151 && m[3] == 198597369 && m[6] == 47569481
            &&& m[1] == 45744140 && m[4] == 941777862 && m[7] == 12477999
            &&& m[2] == 1210226 && m[5] == 17601327 && m[8] == 981188447
        }),
        ({
            let m = primaries_conversion(NamedPrimaries::DciP3, false);
            &&& m.len() == 9
            &&& m[0] == 1224940180 && m[3] == -224940180 && m[6] == 0
            &&& m[1] == -42056955 && m[4] == 1042056955 && m[7] == 0
            &&& m[2] == -19637555 && m[5] == -78636045 && m[8] == 1098273600
        }),
{
}

} // verus!
