use cosmic_comp::geometry::{invert, is_sideways, subtract_rects_many, transform_rect_in, Rect};
use cosmic_comp::output_config::TransformDef;

fn rect(x: i32, y: i32, w: i32, h: i32) -> Rect {
    Rect { x, y, w, h }
}

const ALL: [TransformDef; 8] = [
    TransformDef::Normal,
    TransformDef::_90,
    TransformDef::_180,
    TransformDef::_270,
    TransformDef::Flipped,
    TransformDef::Flipped90,
    TransformDef::Flipped180,
    TransformDef::Flipped270,
];

#[test]
fn intersections() {
    let a = rect(0, 0, 10, 10);
    assert_eq!(a.intersection(rect(5, 6, 10, 10)), Some(rect(5, 6, 5, 4)));
    assert_eq!(a.intersection(rect(2, 2, 3, 3)), Some(rect(2, 2, 3, 3)));
    assert_eq!(a.intersection(rect(10, 0, 5, 5)), None);
    assert_eq!(a.intersection(rect(-5, -5, 5, 5)), None);
    assert_eq!(a.intersection(a), Some(a));
}

#[test]
fn subtraction_leaves_strips() {
    let hole = vec![rect(3, 4, 2, 3)];
    assert_eq!(
        subtract_rects_many(vec![rect(0, 0, 10, 10)], &hole),
        vec![rect(0, 0, 10, 4), rect(0, 4, 3, 3), rect(5, 4, 5, 3), rect(0, 7, 10, 3)]
    );
    assert!(subtract_rects_many(vec![rect(3, 4, 2, 2)], &hole).is_empty());
    assert_eq!(subtract_rects_many(vec![rect(0, 0, 1, 1)], &hole), vec![rect(0, 0, 1, 1)]);
    assert_eq!(subtract_rects_many(vec![rect(0, 0, 9, 9)], &vec![]), vec![rect(0, 0, 9, 9)]);
}

#[test]
fn subtraction_keeps_exactly_the_other_pixels() {
    let covers = |rects: &[Rect], x: i32, y: i32| {
        rects.iter().any(|r| r.x <= x && x < r.x + r.w && r.y <= y && y < r.y + r.h)
    };
    let rects = vec![rect(0, 0, 8, 5), rect(6, 3, 6, 6), rect(-4, 2, 3, 9)];
    let others = vec![rect(2, 1, 7, 3), rect(-9, 4, 30, 1), rect(7, 7, 2, 2)];
    let rest = subtract_rects_many(rects.clone(), &others);
    for x in -10..20 {
        for y in -5..20 {
            assert_eq!(
                covers(&rest, x, y),
                covers(&rects, x, y) && !covers(&others, x, y),
                "({}, {})",
                x,
                y
            );
        }
    }
}

#[test]
fn transformed_rectangles() {
    // In an area of 100 by 50.
    let at = |transform| transform_rect_in(transform, rect(10, 20, 5, 8), (100, 50));
    assert_eq!(at(TransformDef::Normal), rect(10, 20, 5, 8));
    assert_eq!(at(TransformDef::_90), rect(22, 10, 8, 5));
    assert_eq!(at(TransformDef::_180), rect(85, 22, 5, 8));
    assert_eq!(at(TransformDef::_270), rect(20, 85, 8, 5));
    assert_eq!(at(TransformDef::Flipped), rect(85, 20, 5, 8));
    assert_eq!(at(TransformDef::Flipped90), rect(22, 85, 8, 5));
    assert_eq!(at(TransformDef::Flipped180), rect(10, 22, 5, 8));
    assert_eq!(at(TransformDef::Flipped270), rect(20, 10, 8, 5));
}

#[test]
fn opposite_transforms_undo_each_other() {
    let item = rect(10, 20, 5, 8);
    for transform in ALL {
        let turned = if is_sideways(transform) { (50, 100) } else { (100, 50) };
        let back = match transform {
            TransformDef::Flipped90 | TransformDef::Flipped270 => transform,
            other => invert(other),
        };
        let there = transform_rect_in(transform, item, (100, 50));
        assert_eq!(transform_rect_in(back, there, turned), item, "{:?}", transform);
    }
}

#[test]
fn inversion_is_its_own_inverse() {
    for transform in ALL {
        assert_eq!(invert(invert(transform)), transform);
        assert_eq!(is_sideways(invert(transform)), is_sideways(transform));
    }
    assert_eq!(invert(TransformDef::_90), TransformDef::_270);
    assert_eq!(invert(TransformDef::Flipped270), TransformDef::Flipped90);
    assert_eq!(invert(TransformDef::_180), TransformDef::_180);
}
