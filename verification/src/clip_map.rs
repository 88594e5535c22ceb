//! Where a pixel of a surface lies in the window that it is clipped to.
//!
//! The shader gets texture coordinates, which run from zero to one over the buffer.
//! To find the rounded corners it needs coordinates that run from zero to one over
//! the window. Between them lie the part of the buffer that is shown, the place of
//! the element in the window, and the transform of the buffer.
use vstd::prelude::*;

use crate::clipped_surface::{corner_radii, ColorTransform, CornerRadii};
use crate::fixed_point;
use crate::geometry::{fine_in_range, FineRect, Rect};
use crate::output_config::TransformDef;

verus! {

/// A coordinate as a function of one of the texture coordinates: with `t` for that
/// one, it is `(scale * t + offset) / divisor`.
#[derive(Debug, Clone, Copy, PartialEq, Eq, Structural)]
pub struct AxisMap {
    /// Whether `t` is the vertical texture coordinate.
    pub vertical: bool,
    pub scale: i128,
    pub offset: i128,
    pub divisor: i128,
}

/// An axis: the length of the element on it, that of the window, their distance,
/// the length of the buffer, and the start and length of the source.
pub struct Axis {
    pub element: int,
    pub window: int,
    pub distance: int,
    pub buffer: int,
    pub start: int,
    pub length: int,
}

pub open spec fn horizontal_axis(elem: Rect, geo: Rect, buffer: (i32, i32), src: FineRect) -> Axis {
    Axis {
        element: elem.w as int,
        window: geo.w as int,
        distance: elem.x - geo.x,
        buffer: buffer.0 as int,
        start: src.x as int,
        length: src.w as int,
    }
}

pub open spec fn vertical_axis(elem: Rect, geo: Rect, buffer: (i32, i32), src: FineRect) -> Axis {
    Axis {
        element: elem.h as int,
        window: geo.h as int,
        distance: elem.y - geo.y,
        buffer: buffer.1 as int,
        start: src.y as int,
        length: src.h as int,
    }
}

/// Every length that is divided by is there. Where one is zero, the coordinates are
/// undefined.
pub open spec fn is_measurable(axis: Axis) -> bool {
    &&& axis.element != 0
    &&& axis.window != 0
    &&& axis.buffer != 0
    &&& axis.length != 0
}

pub open spec fn axis_scale(axis: Axis) -> int {
    256 * (axis.element * axis.buffer)
}

pub open spec fn axis_offset(axis: Axis) -> int {
    axis.element * axis.start + axis.distance * axis.length
}

pub open spec fn axis_divisor(axis: Axis) -> int {
    axis.length * axis.window
}

/// The coordinate along an axis, counted from its start or from its end.
pub open spec fn is_axis_map(map: AxisMap, axis: Axis, vertical: bool, from_end: bool) -> bool {
    &&& map.vertical == vertical
    &&& map.divisor == axis_divisor(axis)
    &&& if from_end {
        map.scale == -axis_scale(axis) && map.offset == axis_divisor(axis) - axis_offset(axis)
    } else {
        map.scale == axis_scale(axis) && map.offset == axis_offset(axis)
    }
}

/// Which axis each coordinate of the window follows, and whether from its end: first
/// for the horizontal coordinate, then for the vertical one.
pub open spec fn followed_axes(transform: TransformDef) -> ((bool, bool), (bool, bool)) {
    match transform {
        TransformDef::Normal => ((false, false), (true, false)),
        TransformDef::_90 => ((true, false), (false, true)),
        TransformDef::_180 => ((false, true), (true, true)),
        TransformDef::_270 => ((true, true), (false, false)),
        TransformDef::Flipped => ((false, true), (true, false)),
        TransformDef::Flipped90 => ((true, false), (false, false)),
        TransformDef::Flipped180 => ((false, false), (true, true)),
        TransformDef::Flipped270 => ((true, true), (false, true)),
    }
}

fn axis_map(
    element: i32,
    window: i32,
    distance: i64,
    buffer: i32,
    start: i64,
    length: i64,
    vertical: bool,
    from_end: bool,
) -> (map: AxisMap)
    requires
        -0x1_0000_0000 <= distance <= 0x1_0000_0000,
        -0x1_0000_0000_0000 <= start <= 0x1_0000_0000_0000,
        -0x1_0000_0000_0000 <= length <= 0x1_0000_0000_0000,
    ensures
        is_axis_map(
            map,
            (Axis {
                element: element as int,
                window: window as int,
                distance: distance as int,
                buffer: buffer as int,
                start: start as int,
                length: length as int,
            }),
            vertical,
            from_end,
        ),
{
    proof {
        let (e, w, d, b, s, l) = (
            element as int,
            window as int,
            distance as int,
            buffer as int,
            start as int,
            length as int,
        );
        lemma_product_in_range(e, b, 0x8000_0000, 0x8000_0000);
        lemma_product_in_range(e, s, 0x8000_0000, 0x1_0000_0000_0000);
        lemma_product_in_range(d, l, 0x1_0000_0000, 0x1_0000_0000_0000);
        lemma_product_in_range(l, w, 0x1_0000_0000_0000, 0x8000_0000);
    }
    let scale: i128 = 256 * (element as i128 * buffer as i128);
    let offset: i128 = element as i128 * start as i128 + distance as i128 * length as i128;
    let divisor: i128 = length as i128 * window as i128;
    if from_end {
        AxisMap { vertical, scale: -scale, offset: divisor - offset, divisor }
    } else {
        AxisMap { vertical, scale, offset, divisor }
    }
}

proof fn lemma_product_in_range(a: int, b: int, p: int, q: int)
    requires
        -p <= a <= p,
        -q <= b <= q,
        0 <= p,
        0 <= q,
    ensures
        -(p * q) <= a * b <= p * q,
{
    assert(-(p * q) <= a * b <= p * q) by (nonlinear_arith)
        requires
            -p <= a <= p,
            -q <= b <= q,
            0 <= p,
            0 <= q,
    ;
}

/// The maps for an element: the horizontal and the vertical coordinate, each along the
/// axis that it follows. There are none unless both axes can be measured.
pub open spec fn are_maps_for(
    maps: Option<(AxisMap, AxisMap)>,
    across: Axis,
    down: Axis,
    transform: TransformDef,
) -> bool {
    let (first, second) = followed_axes(transform);
    match maps {
        Some((horizontal, vertical)) => {
            &&& is_measurable(across)
            &&& is_measurable(down)
            &&& is_axis_map(
                horizontal,
                if first.0 {
                    down
                } else {
                    across
                },
                first.0,
                first.1,
            )
            &&& is_axis_map(
                vertical,
                if second.0 {
                    down
                } else {
                    across
                },
                second.0,
                second.1,
            )
        },
        None => !is_measurable(across) || !is_measurable(down),
    }
}

/// The coordinates in the window, horizontal and vertical, as functions of the
/// texture coordinates. Neither is defined where the element, the window, the buffer
/// or the source has no width or no height.
pub fn input_to_geo(
    elem: Rect,
    geo: Rect,
    buffer: (i32, i32),
    src: FineRect,
    transform: TransformDef,
) -> (maps: Option<(AxisMap, AxisMap)>)
    requires
        fine_in_range(src),
    ensures
        are_maps_for(
            maps,
            horizontal_axis(elem, geo, buffer, src),
            vertical_axis(elem, geo, buffer, src),
            transform,
        ),
{
    if elem.w == 0 || geo.w == 0 || buffer.0 == 0 || src.w == 0 || elem.h == 0 || geo.h == 0
        || buffer.1 == 0 || src.h == 0 {
        return None;
    }
    let ((first_down, first_end), (second_down, second_end)): ((bool, bool), (bool, bool)) =
        match transform {
        TransformDef::Normal => ((false, false), (true, false)),
        TransformDef::_90 => ((true, false), (false, true)),
        TransformDef::_180 => ((false, true), (true, true)),
        TransformDef::_270 => ((true, true), (false, false)),
        TransformDef::Flipped => ((false, true), (true, false)),
        TransformDef::Flipped90 => ((true, false), (false, false)),
        TransformDef::Flipped180 => ((false, false), (true, true)),
        TransformDef::Flipped270 => ((true, true), (false, true)),
    };
    let dx: i64 = elem.x as i64 - geo.x as i64;
    let dy: i64 = elem.y as i64 - geo.y as i64;
    let first: AxisMap = if first_down {
        axis_map(elem.h, geo.h, dy, buffer.1, src.y, src.h, true, first_end)
    } else {
        axis_map(elem.w, geo.w, dx, buffer.0, src.x, src.w, false, first_end)
    };
    let second: AxisMap = if second_down {
        axis_map(elem.h, geo.h, dy, buffer.1, src.y, src.h, true, second_end)
    } else {
        axis_map(elem.w, geo.w, dx, buffer.0, src.x, src.w, false, second_end)
    };
    Some((first, second))
}

/// The coordinate along an axis, step by step: the texture coordinate is moved by the
/// start of the source, stretched from the source to the buffer, moved by the place of
/// the element, and stretched from the element to the window.
pub open spec fn stepwise(axis: Axis, t: real) -> real {
    let start = (axis.start as real) / 256real;
    let length = (axis.length as real) / 256real;
    let buffer = axis.buffer as real;
    let element = axis.element as real;
    let moved = t + start / buffer;
    let stretched = moved * (buffer / length);
    let placed = stretched + (axis.distance as real) / element;
    placed * (element / (axis.window as real))
}

/// The map of an axis is what the steps amount to; and counted from the end of the
/// window it is the rest to one.
pub proof fn lemma_axis_map_is_stepwise(map: AxisMap, axis: Axis, vertical: bool, from_end: bool, t: real)
    requires
        is_axis_map(map, axis, vertical, from_end),
        is_measurable(axis),
    ensures
        ((map.scale as real) * t + (map.offset as real)) / (map.divisor as real) == (if from_end {
            1real - stepwise(axis, t)
        } else {
            stepwise(axis, t)
        }),
{
    let (e, w, d, b, s, l) = (
        axis.element as real,
        axis.window as real,
        axis.distance as real,
        axis.buffer as real,
        axis.start as real,
        axis.length as real,
    );
    lemma_real_times(axis.element, axis.buffer);
    lemma_real_times(axis.element, axis.start);
    lemma_real_times(axis.distance, axis.length);
    lemma_real_times(axis.length, axis.window);
    let scale = 256real * (e * b);
    let offset = e * s + d * l;
    let divisor = l * w;
    assert(axis_scale(axis) as real == scale);
    assert(axis_offset(axis) as real == offset);
    assert(axis_divisor(axis) as real == divisor);
    lemma_steps(e, w, d, b, s, l, t);
    let value = stepwise(axis, t);
    assert(divisor != 0real) by (nonlinear_arith)
        requires
            divisor == l * w,
            l != 0real,
            w != 0real,
    ;
    if from_end {
        let top = scale * t + offset;
        lemma_quotient(top, divisor);
        let rest = 1real - top / divisor;
        lemma_regroup(1real, -(top / divisor), divisor);
        assert((-(top / divisor)) * divisor == -((top / divisor) * divisor)) by (nonlinear_arith);
        assert(rest * divisor == divisor - top);
        assert((-scale) * t == -(scale * t)) by (nonlinear_arith);
        lemma_is_quotient((-scale) * t + (divisor - offset), divisor, rest);
        assert(map.scale as real == -scale);
        assert(map.offset as real == divisor - offset);
    }
}

proof fn lemma_quotient(a: real, b: real)
    requires
        b != 0real,
    ensures
        (a / b) * b == a,
{
    assert((a / b) * b == a) by (nonlinear_arith)
        requires
            b != 0real,
    ;
}

proof fn lemma_is_quotient(a: real, b: real, c: real)
    requires
        b != 0real,
        c * b == a,
    ensures
        c == a / b,
{
    assert(c == a / b) by (nonlinear_arith)
        requires
            b != 0real,
            c * b == a,
    ;
}

proof fn lemma_regroup(a: real, b: real, c: real)
    ensures
        (a * b) * c == a * (b * c),
        (a * b) * c == (a * c) * b,
        (a + b) * c == a * c + b * c,
        a * (b + c) == a * b + a * c,
        a * b == b * a,
{
    assert((a * b) * c == a * (b * c)) by (nonlinear_arith);
    assert((a * b) * c == (a * c) * b) by (nonlinear_arith);
    assert((a + b) * c == a * c + b * c) by (nonlinear_arith);
    assert(a * (b + c) == a * b + a * c) by (nonlinear_arith);
    assert(a * b == b * a) by (nonlinear_arith);
}

proof fn lemma_steps(e: real, w: real, d: real, b: real, s: real, l: real, t: real)
    requires
        e != 0real,
        w != 0real,
        b != 0real,
        l != 0real,
    ensures
        ((t + (s / 256real) / b) * (b / (l / 256real)) + d / e) * (e / w) == (256real * (e * b) * t
            + (e * s + d * l)) / (l * w),
{
    let start = s / 256real;
    let length = l / 256real;
    let p = start / b;
    let q = b / length;
    let r = d / e;
    let u = e / w;
    assert(l == 256real * length && s == 256real * start);
    lemma_quotient(start, b);
    lemma_quotient(b, length);
    lemma_quotient(d, e);
    lemma_quotient(e, w);
    // stretched * length == t * b + start
    let stretched = (t + p) * q;
    lemma_regroup(t + p, q, length);
    lemma_regroup(t, p, b);
    assert(stretched * length == t * b + start);
    // (placed * e) * length == e * (t * b + start) + d * length
    let placed = stretched + r;
    lemma_regroup(stretched, r, e);
    assert(placed * e == stretched * e + d);
    lemma_regroup(stretched * e, d, length);
    lemma_regroup(stretched, e, length);
    let core = (t * b + start) * e + d * length;
    assert((placed * e) * length == core);
    // core * 256 == top
    let top = 256real * (e * b) * t + (e * s + d * l);
    lemma_regroup(t * b, start, e);
    lemma_regroup(t, b, e);
    lemma_regroup(b, e, t);
    assert((t * b) * e == (e * b) * t) by {
        lemma_regroup(t, b, e);
        lemma_regroup(e, b, t);
        assert((t * b) * e == t * (b * e));
        assert(t * (b * e) == (b * e) * t) by {
            lemma_regroup(t, b * e, 0real);
        }
        assert(b * e == e * b);
    }
    assert(e * s == 256real * (start * e)) by (nonlinear_arith)
        requires
            s == 256real * start,
    ;
    assert(d * l == 256real * (d * length)) by (nonlinear_arith)
        requires
            l == 256real * length,
    ;
    assert(256real * (e * b) * t == 256real * ((e * b) * t)) by (nonlinear_arith);
    assert(256real * core == top);
    assert((placed * e) * l == 256real * ((placed * e) * length)) by (nonlinear_arith)
        requires
            l == 256real * length,
    ;
    assert((placed * e) * l == top);
    // (placed * u) * (l * w) == top
    lemma_regroup(placed, u, l * w);
    assert((placed * u) * (l * w) == (placed * (u * w)) * l) by {
        lemma_regroup(placed * u, l, w);
        lemma_regroup(placed * u, w, l);
        lemma_regroup(placed, u, w);
        assert((placed * u) * (l * w) == ((placed * u) * l) * w);
        assert(((placed * u) * l) * w == ((placed * u) * w) * l);
    }
    assert(l * w != 0real) by (nonlinear_arith)
        requires
            l != 0real,
            w != 0real,
    ;
    lemma_is_quotient(top, l * w, placed * u);
}

proof fn lemma_real_times(a: int, b: int)
    ensures
        (a * b) as real == (a as real) * (b as real),
{
    let (x, y) = (
        if a >= 0 {
            a
        } else {
            -a
        },
        if b >= 0 {
            b
        } else {
            -b
        },
    );
    fixed_point::lemma_real_product(x as nat, y as nat);
    assert(a * b == x * y || a * b == -(x * y)) by (nonlinear_arith)
        requires
            a == x || a == -x,
            b == y || b == -y,
    ;
    let (p, q) = (x as real, y as real);
    assert((-p) * q == -(p * q) && p * (-q) == -(p * q) && (-p) * (-q) == p * q)
        by (nonlinear_arith);
    assert((-x) * y == -(x * y) && x * (-y) == -(x * y) && (-x) * (-y) == x * y)
        by (nonlinear_arith);
}

/// What the shader is told to clip a surface and to bring it into the space that is
/// composited in.
#[derive(Debug)]
pub struct ClipUniforms {
    /// The size of the window, in units of `1 / 256` logical pixel.
    pub geo_size: (i64, i64),
    /// In the order top left, top right, bottom right, bottom left.
    pub corners: CornerRadii,
    /// The coordinates in the window, horizontal and vertical, where they are defined.
    pub input_to_geo: Option<(AxisMap, AxisMap)>,
    pub color: ColorTransform,
}

/// What the shader is told for a surface. The window is given in logical pixels by
/// `geometry`, and in pixels of the screen by `geo`.
pub fn new_with_color(
    elem: Rect,
    geometry: FineRect,
    geo: Rect,
    buffer: (i32, i32),
    src: FineRect,
    transform: TransformDef,
    radius: [u8; 4],
    color: ColorTransform,
) -> (uniforms: ClipUniforms)
    requires
        fine_in_range(src),
    ensures
        uniforms.geo_size == (geometry.w, geometry.h),
        uniforms.corners.bottom_right == radius@[0],
        uniforms.corners.top_right == radius@[1],
        uniforms.corners.bottom_left == radius@[2],
        uniforms.corners.top_left == radius@[3],
        uniforms.color == color,
        are_maps_for(
            uniforms.input_to_geo,
            horizontal_axis(elem, geo, buffer, src),
            vertical_axis(elem, geo, buffer, src),
            transform,
        ),
{
    ClipUniforms {
        geo_size: (geometry.w, geometry.h),
        corners: corner_radii(radius),
        input_to_geo: input_to_geo(elem, geo, buffer, src, transform),
        color,
    }
}

/// An upright buffer that is shown whole, over the whole window, keeps its
/// coordinates.
pub proof fn lemma_full_window_is_identity(axis: Axis, t: real)
    requires
        axis.element == axis.window,
        axis.window > 0,
        axis.distance == 0,
        axis.buffer > 0,
        axis.start == 0,
        axis.length == 256 * axis.buffer,
    ensures
        stepwise(axis, t) == t,
{
    let (e, b, l) = (axis.element as real, axis.buffer as real, axis.length as real);
    assert(l / 256real == b);
    assert((t + 0real / b) * (b / b) + 0real / e == t) by (nonlinear_arith)
        requires
            b > 0real,
            e > 0real,
    ;
    assert(t * (e / e) == t) by (nonlinear_arith)
        requires
            e > 0real,
    ;
    assert(0real / 256real == 0real);
}

/// Where a point of the buffer lies in the window, by the transform of the buffer: `x` and
/// `y` are its place along the two axes, as the steps give it.
pub proof fn lemma_transforms_turn_the_window(
    maps: (AxisMap, AxisMap),
    across: Axis,
    down: Axis,
    transform: TransformDef,
    u: real,
    v: real,
)
    requires
        are_maps_for(Some(maps), across, down, transform),
    ensures
        ({
            let (x, y) = (stepwise(across, u), stepwise(down, v));
            let along = if maps.0.vertical {
                v
            } else {
                u
            };
            let beside = if maps.1.vertical {
                v
            } else {
                u
            };
            let h = ((maps.0.scale as real) * along + (maps.0.offset as real)) / (
            maps.0.divisor as real);
            let w = ((maps.1.scale as real) * beside + (maps.1.offset as real)) / (
            maps.1.divisor as real);
            match transform {
                TransformDef::Normal => h == x && w == y,
                TransformDef::_90 => h == y && w == 1real - x,
                TransformDef::_180 => h == 1real - x && w == 1real - y,
                TransformDef::_270 => h == 1real - y && w == x,
                TransformDef::Flipped => h == 1real - x && w == y,
                TransformDef::Flipped90 => h == y && w == x,
                TransformDef::Flipped180 => h == x && w == 1real - y,
                TransformDef::Flipped270 => h == 1real - y && w == 1real - x,
            }
        }),
{
    let (first, second) = followed_axes(transform);
    let first_axis = if first.0 {
        down
    } else {
        across
    };
    let second_axis = if second.0 {
        down
    } else {
        across
    };
    let along = if first.0 {
        v
    } else {
        u
    };
    let beside = if second.0 {
        v
    } else {
        u
    };
    lemma_axis_map_is_stepwise(maps.0, first_axis, first.0, first.1, along);
    lemma_axis_map_is_stepwise(maps.1, second_axis, second.0, second.1, beside);
}

/// The coordinates are undefined exactly where the element, the window, the buffer or the
/// source has no width or no height.
pub proof fn lemma_maps_need_lengths(
    maps: Option<(AxisMap, AxisMap)>,
    elem: Rect,
    geo: Rect,
    buffer: (i32, i32),
    src: FineRect,
    transform: TransformDef,
)
    requires
        are_maps_for(
            maps,
            horizontal_axis(elem, geo, buffer, src),
            vertical_axis(elem, geo, buffer, src),
            transform,
        ),
    ensures
        maps is None <==> elem.w == 0 || elem.h == 0 || geo.w == 0 || geo.h == 0 || buffer.0 == 0
            || buffer.1 == 0 || src.w == 0 || src.h == 0,
{
}

/// What the steps start from: the element, the window and the buffer by their lengths, the
/// element's place in the window, and the source.
pub proof fn lemma_axes_of_an_element(elem: Rect, geo: Rect, buffer: (i32, i32), src: FineRect)
    ensures
        ({
            let (across, down) = (
                horizontal_axis(elem, geo, buffer, src),
                vertical_axis(elem, geo, buffer, src),
            );
            &&& across.element == elem.w && down.element == elem.h
            &&& across.window == geo.w && down.window == geo.h
            &&& across.distance + geo.x == elem.x && down.distance + geo.y == elem.y
            &&& across.buffer == buffer.0 && down.buffer == buffer.1
            &&& across.start == src.x && down.start == src.y
            &&& across.length == src.w && down.length == src.h
        }),
{
}

/// A map is straight: a step of the texture coordinate across the whole buffer moves by the
/// length of the element, stretched from the source to the buffer, over that of the window;
/// and the texture coordinate zero lies where the start of the source, stretched alike, and
/// the place of the element put it. From the end the map runs backwards.
pub proof fn lemma_axis_maps_are_straight(map: AxisMap, axis: Axis, vertical: bool, from_end: bool)
    requires
        is_axis_map(map, axis, vertical, from_end),
    ensures
        map.vertical == vertical,
        map.divisor == axis.length * axis.window,
        !from_end ==> map.scale == 256 * (axis.buffer * axis.element),
        from_end ==> map.scale == -256 * (axis.buffer * axis.element),
        !from_end ==> map.offset == axis.start * axis.element + axis.length * axis.distance,
        from_end ==> map.offset == axis.length * axis.window - axis.start * axis.element
            - axis.length * axis.distance,
{
    assert(axis.element * axis.buffer == axis.buffer * axis.element) by (nonlinear_arith);
    assert(axis.element * axis.start == axis.start * axis.element) by (nonlinear_arith);
    assert(axis.distance * axis.length == axis.length * axis.distance) by (nonlinear_arith);
}

} // verus!
