use cosmic_comp::clip_map::{input_to_geo, new_with_color, AxisMap};
use cosmic_comp::clipped_surface::{
    clear_render_hdr_context, corner_radii, damage_since, linearize_white, opaque_regions, path_b_enabled,
    render_hdr_active, rounded_corners, set_render_hdr_context, will_clip, ColorTransform,
    CornerRadii, RenderHdrContext,
};
use cosmic_comp::color_management::{
    ImageDescription, NamedPrimaries, NamedTransferFunction, PrimariesDef, TransferFunctionDef,
};
use cosmic_comp::geometry::{FineRect, Rect};
use cosmic_comp::output_config::TransformDef;
use cosmic_comp::tf;

fn rect(x: i32, y: i32, w: i32, h: i32) -> Rect {
    Rect { x, y, w, h }
}

fn described(
    primaries: Option<PrimariesDef>,
    transfer_function: Option<TransferFunctionDef>,
) -> ImageDescription {
    ImageDescription {
        primaries,
        transfer_function,
        luminances: None,
        mastering_luminance: None,
        max_cll: None,
        max_fall: None,
        windows_scrgb: false,
    }
}

fn matrix(transform: &ColorTransform) -> [f64; 9] {
    let mut entries = [0.0; 9];
    for i in 0..9 {
        entries[i] = transform.primaries_matrix[i] as f64 / 1e9;
    }
    entries
}

#[test]
fn scene_linear_compositing_is_opted_into() {
    for value in ["1", "true", "TRUE"] {
        assert!(path_b_enabled(Some(value)));
    }
    for value in ["0", "True", "yes", "", "1 "] {
        assert!(!path_b_enabled(Some(value)), "{:?}", value);
    }
    assert!(!path_b_enabled(None));
}

#[test]
fn context_is_scoped_to_a_frame() {
    let mut context = RenderHdrContext::new();
    assert!(!render_hdr_active(&context));
    assert_eq!(linearize_white(true, &context), None);
    set_render_hdr_context(&mut context, true, 203);
    assert!(render_hdr_active(&context));
    assert_eq!(linearize_white(true, &context), Some(203));
    assert_eq!(linearize_white(false, &context), None);
    assert_eq!(context.current, Some((true, 203)));
    set_render_hdr_context(&mut context, false, 203);
    assert_eq!(context.current, None);
    assert!(!render_hdr_active(&context));
    assert_eq!(linearize_white(true, &context), None);
    set_render_hdr_context(&mut context, true, 100);
    clear_render_hdr_context(&mut context);
    assert_eq!(context, RenderHdrContext::new());
}

#[test]
fn transforms_for_the_current_frame() {
    let mut context = RenderHdrContext::new();
    assert_eq!(
        ColorTransform::for_current_frame(true, &context),
        ColorTransform::passthrough()
    );
    set_render_hdr_context(&mut context, true, 250);
    assert_eq!(
        ColorTransform::for_current_frame(true, &context),
        ColorTransform::for_surface(None, true, 250)
    );
    assert_eq!(
        ColorTransform::for_current_frame(false, &context),
        ColorTransform::passthrough()
    );
    let transform = ColorTransform::passthrough();
    assert_eq!(transform.tf_id, tf::PASSTHROUGH);
    assert_eq!(transform.ref_white_scale, 10000);
    assert_eq!(matrix(&transform), [1.0, 0.0, 0.0, 0.0, 1.0, 0.0, 0.0, 0.0, 1.0]);
}

#[test]
fn transfer_functions_of_descriptions() {
    let cases = [
        (NamedTransferFunction::Srgb, tf::SRGB),
        (NamedTransferFunction::Bt1886, tf::BT1886),
        (NamedTransferFunction::Gamma22, tf::GAMMA22),
        (NamedTransferFunction::St2084Pq, tf::ST2084_PQ),
        (NamedTransferFunction::Hlg, tf::HLG),
        (NamedTransferFunction::ExtLinear, tf::EXT_LINEAR),
        (NamedTransferFunction::Other, tf::SRGB),
    ];
    for (function, id) in cases {
        let description = described(None, Some(TransferFunctionDef::Named(function)));
        assert_eq!(ColorTransform::for_surface(Some(&description), false, 203).tf_id, id);
    }
    assert_eq!(ColorTransform::for_surface(None, false, 203).tf_id, tf::SRGB);
    let unnamed = described(None, None);
    assert_eq!(ColorTransform::for_surface(Some(&unnamed), true, 203).tf_id, tf::SRGB);
}

#[test]
fn reference_white_applies_to_hdr_outputs() {
    assert_eq!(ColorTransform::for_surface(None, true, 203).ref_white_scale, 203);
    assert_eq!(ColorTransform::for_surface(None, false, 203).ref_white_scale, 10000);
}

#[test]
fn primaries_are_converted_to_the_composite_space() {
    let of = |primaries, hdr| {
        let description = described(Some(PrimariesDef::Named(primaries)), None);
        matrix(&ColorTransform::for_surface(Some(&description), hdr, 203))
    };
    let identity = [1.0, 0.0, 0.0, 0.0, 1.0, 0.0, 0.0, 0.0, 1.0];
    assert_eq!(of(NamedPrimaries::Srgb, false), identity);
    assert_eq!(of(NamedPrimaries::Bt2020, true), identity);
    assert_eq!(of(NamedPrimaries::Other, true), identity);
    assert_eq!(of(NamedPrimaries::DciP3, true), of(NamedPrimaries::DisplayP3, true));
    assert_eq!(of(NamedPrimaries::DciP3, true)[0], 0.753833151);
    assert_eq!(of(NamedPrimaries::DciP3, false)[0], 1.224940180);
    assert_eq!(of(NamedPrimaries::Bt2020, false)[3], -0.587641138);
    assert_eq!(matrix(&ColorTransform::for_surface(None, true, 203))[0], 0.627403896);
    // White stays white, and there and back is where one started.
    let there = of(NamedPrimaries::Srgb, true);
    let back = of(NamedPrimaries::Bt2020, false);
    for r in 0..3 {
        assert!((there[r] + there[r + 3] + there[r + 6] - 1.0).abs() < 1e-8);
        for c in 0..3 {
            let entry: f64 = (0..3).map(|k| back[r + 3 * k] * there[3 * c + k]).sum();
            let exact = if r == c { 1.0 } else { 0.0 };
            assert!((entry - exact).abs() < 1e-6);
        }
    }
}

#[test]
fn corner_radii_are_reordered() {
    assert_eq!(
        corner_radii([1, 2, 3, 4]),
        CornerRadii { top_left: 4, top_right: 2, bottom_right: 1, bottom_left: 3 }
    );
}

#[test]
fn corners_are_squares_in_the_window() {
    let geo = FineRect { x: 256, y: 512, w: 25600, h: 12800 };
    let square = |x, y, side| FineRect { x, y, w: side, h: side };
    assert_eq!(
        rounded_corners(geo, [1, 2, 3, 4]),
        [
            square(256, 512, 1024),
            square(25856 - 512, 512, 512),
            square(25856 - 256, 13312 - 256, 256),
            square(256, 13312 - 768, 768),
        ]
    );
    for corner in rounded_corners(geo, [0; 4]) {
        assert_eq!((corner.w, corner.h), (0, 0));
    }
}

#[test]
fn clipping_is_seen() {
    let window = rect(0, 0, 100, 100);
    let corners = vec![rect(0, 0, 10, 10), rect(90, 90, 10, 10)];
    assert!(!will_clip(rect(20, 20, 30, 30), window, &corners));
    assert!(will_clip(rect(5, 5, 30, 30), window, &corners));
    assert!(will_clip(rect(95, 20, 10, 10), window, &corners));
    assert!(will_clip(window, window, &corners));
    assert!(!will_clip(window, window, &vec![]));
    assert!(!will_clip(rect(10, 0, 80, 100), window, &corners));
}

#[test]
fn damage_is_limited_to_the_window() {
    let window = rect(10, 10, 50, 50);
    // The element lies at (5, 5), so that the window starts at (5, 5) in it.
    let damage = vec![rect(0, 0, 10, 10), rect(0, 0, 5, 5), rect(50, 50, 100, 100)];
    assert_eq!(
        damage_since(&damage, window, (5, 5)),
        vec![rect(5, 5, 5, 5), rect(50, 50, 5, 5)]
    );
}

#[test]
fn opaque_regions_leave_the_corners_out() {
    let window = rect(0, 0, 20, 20);
    let corners = vec![rect(0, 0, 4, 4)];
    let regions = vec![rect(-5, -5, 30, 30)];
    let clipped = opaque_regions(&regions, window, &corners, (0, 0));
    assert_eq!(clipped, vec![rect(4, 0, 16, 4), rect(0, 4, 20, 16)]);
    assert!(opaque_regions(&vec![], window, &corners, (0, 0)).is_empty());
    // Relative to an element at (2, 3).
    assert_eq!(
        opaque_regions(&vec![rect(0, 0, 6, 6)], window, &corners, (2, 3)),
        vec![rect(2, 0, 4, 1), rect(0, 1, 6, 5)]
    );
}

type Matrix = [[f64; 3]; 3];

fn product(a: Matrix, b: Matrix) -> Matrix {
    let mut c = [[0.0; 3]; 3];
    for i in 0..3 {
        for j in 0..3 {
            c[i][j] = (0..3).map(|k| a[i][k] * b[k][j]).sum();
        }
    }
    c
}

fn translation(x: f64, y: f64) -> Matrix {
    [[1.0, 0.0, x], [0.0, 1.0, y], [0.0, 0.0, 1.0]]
}

fn scaling(x: f64, y: f64) -> Matrix {
    [[x, 0.0, 0.0], [0.0, y, 0.0], [0.0, 0.0, 1.0]]
}

fn as_matrix(maps: (AxisMap, AxisMap)) -> Matrix {
    let row = |map: AxisMap| {
        let scale = map.scale as f64 / map.divisor as f64;
        let offset = map.offset as f64 / map.divisor as f64;
        if map.vertical {
            [0.0, scale, offset]
        } else {
            [scale, 0.0, offset]
        }
    };
    [row(maps.0), row(maps.1), [0.0, 0.0, 1.0]]
}

#[test]
fn texture_coordinates_are_mapped_step_by_step() {
    let elem = rect(30, 45, 200, 80);
    let geo = rect(20, 50, 160, 120);
    let buffer = (400, 320);
    let src = FineRect { x: 10 * 256, y: 20 * 256 + 128, w: 300 * 256, h: 240 * 256 };
    // The linear parts of the transforms, which the texture is turned by.
    let transforms = [
        (TransformDef::Normal, [[1.0, 0.0], [0.0, 1.0]]),
        (TransformDef::_90, [[0.0, 1.0], [-1.0, 0.0]]),
        (TransformDef::_180, [[-1.0, 0.0], [0.0, -1.0]]),
        (TransformDef::_270, [[0.0, -1.0], [1.0, 0.0]]),
        (TransformDef::Flipped, [[-1.0, 0.0], [0.0, 1.0]]),
        (TransformDef::Flipped90, [[0.0, 1.0], [1.0, 0.0]]),
        (TransformDef::Flipped180, [[1.0, 0.0], [0.0, -1.0]]),
        (TransformDef::Flipped270, [[0.0, -1.0], [-1.0, 0.0]]),
    ];
    for (transform, [[a, b], [c, d]]) in transforms {
        let turn = product(
            product(translation(0.5, 0.5), [[a, b, 0.0], [c, d, 0.0], [0.0, 0.0, 1.0]]),
            translation(-0.5, -0.5),
        );
        let steps = [
            scaling(200.0 / 160.0, 80.0 / 120.0),
            translation(10.0 / 200.0, -5.0 / 80.0),
            scaling(400.0 / 300.0, 320.0 / 240.0),
            translation(10.0 / 400.0, 20.5 / 320.0),
        ];
        let expected = steps.iter().fold(turn, |m, step| product(m, *step));
        let found = as_matrix(input_to_geo(elem, geo, buffer, src, transform).unwrap());
        for i in 0..3 {
            for j in 0..3 {
                assert!(
                    (found[i][j] - expected[i][j]).abs() < 1e-12,
                    "{:?}: {:?} {:?}",
                    transform,
                    found,
                    expected
                );
            }
        }
    }
}

#[test]
fn a_window_that_is_its_buffer_is_left_alone() {
    let window = rect(7, 9, 640, 480);
    let src = FineRect { x: 0, y: 0, w: 640 * 256, h: 480 * 256 };
    let maps = input_to_geo(window, window, (640, 480), src, TransformDef::Normal);
    let found = as_matrix(maps.unwrap());
    assert_eq!(found, [[1.0, 0.0, 0.0], [0.0, 1.0, 0.0], [0.0, 0.0, 1.0]]);
}

#[test]
fn uniforms_of_a_clipped_surface() {
    let window = rect(0, 0, 10, 10);
    let src = FineRect { x: 0, y: 0, w: 2560, h: 2560 };
    let color = ColorTransform::for_surface(None, true, 250);
    let logical = FineRect { x: 0, y: 0, w: 1280, h: 2560 };
    let radius = [1, 2, 3, 4];
    let uniforms = new_with_color(
        window,
        logical,
        window,
        (10, 10),
        src,
        TransformDef::_180,
        radius,
        color,
    );
    assert_eq!(uniforms.geo_size, (1280, 2560));
    assert_eq!(uniforms.corners, corner_radii([1, 2, 3, 4]));
    assert_eq!(uniforms.color, color);
    let maps = input_to_geo(window, window, (10, 10), src, TransformDef::_180);
    assert!(maps.is_some());
    assert_eq!(uniforms.input_to_geo, maps);
}

#[test]
fn coordinates_need_lengths() {
    // Width and height of element, window, buffer and source.
    let whole = [200, 80, 160, 120, 400, 320, 300, 240];
    for zero in 0..=whole.len() {
        let mut lengths = whole;
        if zero < lengths.len() {
            lengths[zero] = 0;
        }
        let [ew, eh, gw, gh, bw, bh, sw, sh] = lengths;
        let src = FineRect { x: 256, y: 512, w: sw as i64 * 256, h: sh as i64 * 256 };
        let maps = input_to_geo(
            rect(3, 4, ew, eh),
            rect(1, 1, gw, gh),
            (bw, bh),
            src,
            TransformDef::_90,
        );
        let f = |length: i32| length as f64;
        let turn = product(
            product(translation(0.5, 0.5), [[0.0, 1.0, 0.0], [-1.0, 0.0, 0.0], [0.0, 0.0, 1.0]]),
            translation(-0.5, -0.5),
        );
        let steps = [
            scaling(f(ew) / f(gw), f(eh) / f(gh)),
            translation(2.0 / f(ew), 3.0 / f(eh)),
            scaling(f(bw) / f(sw), f(bh) / f(sh)),
            translation(1.0 / f(bw), 2.0 / f(bh)),
        ];
        let matrix = steps.iter().fold(turn, |m, step| product(m, *step));
        for row in matrix {
            let coordinate = row[0] * 0.25 + row[1] * 0.75 + row[2];
            assert_eq!(coordinate.is_nan(), maps.is_none(), "{:?}", lengths);
        }
        assert_eq!(maps.is_some(), zero == whole.len());
    }
}
