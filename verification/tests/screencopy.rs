use cosmic_comp::geometry::Rect;
use cosmic_comp::output_config::TransformDef;
use cosmic_comp::screencopy::{
    buffer_age, can_be_served, delivery, has_cursor_mode_none, refusal, send_screencopy_result,
    CaptureBuffer, CaptureDraw, CaptureError, CaptureInputs, CaptureTarget, Delivery,
};
use cosmic_comp::surface::ABGR16161616F;

const XRGB8888: u32 = 0x3432_5258;

fn rect(x: i32, y: i32, w: i32, h: i32) -> Rect {
    Rect { x, y, w, h }
}

fn inputs() -> CaptureInputs {
    CaptureInputs {
        damage: Some(Some(vec![rect(10, 20, 30, 40)])),
        buffer: CaptureBuffer::Dmabuf,
        buffer_size: Some((200, 100)),
        draw_cursor: true,
        texture: Some(Some(XRGB8888)),
        cursor: Some(rect(15, 5, 20, 20)),
        output_has_mode: true,
        transform: TransformDef::Normal,
        capture_white: 0,
        tone_down: false,
    }
}

#[test]
fn buffers_and_modes() {
    assert_eq!(buffer_age(CaptureBuffer::Dmabuf), 1);
    assert_eq!(buffer_age(CaptureBuffer::Shm(Some(XRGB8888))), 0);
    assert!(has_cursor_mode_none(&vec![true, false]));
    assert!(!has_cursor_mode_none(&vec![true, true]));
    assert!(!has_cursor_mode_none(&vec![]));
}

#[test]
fn pictures_are_copied() {
    let plan = send_screencopy_result(&inputs()).unwrap();
    assert_eq!(plan.target, CaptureTarget::Dmabuf);
    let CaptureDraw::Blit { damage, cursor } = plan.draw else { panic!("not copied") };
    assert_eq!(damage, vec![rect(10, 20, 30, 40)]);
    // The cursor covers (15, 5) to (35, 25); from (15, 20) on it is damaged.
    assert_eq!(cursor, Some(vec![rect(0, 15, 20, 5)]));
    let hidden = CaptureInputs { draw_cursor: false, ..inputs() };
    let CaptureDraw::Blit { cursor, .. } = send_screencopy_result(&hidden).unwrap().draw else {
        panic!("not copied")
    };
    assert_eq!(cursor, None);
}

#[test]
fn damage_is_turned_with_the_output() {
    let turned = CaptureInputs {
        transform: TransformDef::_90,
        damage: Some(Some(vec![rect(0, 0, 10, 20)])),
        cursor: None,
        ..inputs()
    };
    let CaptureDraw::Blit { damage, .. } = send_screencopy_result(&turned).unwrap().draw else {
        panic!("not copied")
    };
    // The output is 100 by 200, turned back by 270 degrees.
    assert_eq!(damage, vec![rect(0, 90, 20, 10)]);
}

#[test]
fn shared_memory_is_read_back() {
    let other = CaptureInputs { buffer: CaptureBuffer::Shm(Some(ABGR16161616F)), ..inputs() };
    let plan = send_screencopy_result(&other).unwrap();
    assert_eq!(plan.target, CaptureTarget::Renderbuffer(ABGR16161616F));
    let same = CaptureInputs {
        buffer: CaptureBuffer::Shm(Some(XRGB8888)),
        draw_cursor: false,
        ..inputs()
    };
    let plan = send_screencopy_result(&same).unwrap();
    assert_eq!(plan.target, CaptureTarget::Texture);
    assert!(matches!(plan.draw, CaptureDraw::UseTexture));
    let with_cursor = CaptureInputs { draw_cursor: true, ..same };
    let plan = send_screencopy_result(&with_cursor).unwrap();
    assert_eq!(plan.target, CaptureTarget::Renderbuffer(XRGB8888));
}

#[test]
fn linear_pictures_are_toned_down() {
    let linear = CaptureInputs {
        texture: Some(Some(ABGR16161616F)),
        capture_white: 250,
        tone_down: true,
        ..inputs()
    };
    let CaptureDraw::ToneDown { ref_white_scale, damage, cursor } =
        send_screencopy_result(&linear).unwrap().draw
    else {
        panic!("not toned down")
    };
    assert_eq!(ref_white_scale, 250);
    assert_eq!(damage, vec![rect(10, 20, 30, 40)]);
    assert!(cursor.is_some());
    for plain in [
        CaptureInputs { tone_down: false, damage: Some(Some(vec![])), ..linear },
        CaptureInputs { capture_white: 0, texture: Some(Some(ABGR16161616F)), tone_down: true, ..inputs() },
        CaptureInputs { capture_white: 250, tone_down: true, ..inputs() },
    ] {
        let plan = send_screencopy_result(&plain).unwrap();
        assert!(matches!(plan.draw, CaptureDraw::Blit { .. }));
    }
}

#[test]
fn frames_without_a_picture() {
    let direct = CaptureInputs { texture: None, draw_cursor: false, ..inputs() };
    let CaptureDraw::FrameResult { damage, hide_cursor } =
        send_screencopy_result(&direct).unwrap().draw
    else {
        panic!("not from the frame")
    };
    assert_eq!(damage, vec![rect(10, 20, 30, 40)]);
    assert!(hide_cursor);
    let unchanged = CaptureInputs { damage: Some(None), output_has_mode: false, ..inputs() };
    let plan = send_screencopy_result(&unchanged).unwrap();
    assert!(matches!(plan.draw, CaptureDraw::Nothing));
}

#[test]
fn captures_that_fail() {
    let fails = |inputs| send_screencopy_result(&inputs).unwrap_err();
    assert_eq!(fails(CaptureInputs { damage: None, ..inputs() }), CaptureError::NoMode);
    assert_eq!(
        fails(CaptureInputs { buffer_size: None, ..inputs() }),
        CaptureError::ImportFailed
    );
    assert_eq!(
        fails(CaptureInputs { buffer: CaptureBuffer::Shm(None), ..inputs() }),
        CaptureError::NoMode
    );
    assert_eq!(fails(CaptureInputs { output_has_mode: false, ..inputs() }), CaptureError::NoMode);
}

#[test]
fn deliveries() {
    assert_eq!(delivery(false, true), Delivery::Done);
    assert_eq!(delivery(false, false), Delivery::Done);
    assert_eq!(delivery(true, true), Delivery::Now);
    assert_eq!(delivery(true, false), Delivery::WithFrame);
}

#[test]
fn errors_come_before_anything_else() {
    // Read back, toned down, and with a cursor out of range.
    let odd = || CaptureInputs {
        buffer: CaptureBuffer::Shm(Some(ABGR16161616F)),
        texture: Some(Some(ABGR16161616F)),
        draw_cursor: false,
        cursor: Some(rect(i32::MAX, 0, 10, 10)),
        capture_white: 203,
        tone_down: true,
        ..inputs()
    };
    assert_eq!(refusal(&odd()), None);
    assert!(!can_be_served(&odd()));
    let fails = |inputs: CaptureInputs, error| {
        assert_eq!(refusal(&inputs), Some(error));
        assert_eq!(send_screencopy_result(&inputs).unwrap_err(), error);
    };
    fails(CaptureInputs { damage: None, ..odd() }, CaptureError::NoMode);
    fails(CaptureInputs { buffer_size: None, ..odd() }, CaptureError::ImportFailed);
    fails(CaptureInputs { output_has_mode: false, ..odd() }, CaptureError::NoMode);
    fails(CaptureInputs { buffer: CaptureBuffer::Shm(None), ..odd() }, CaptureError::NoMode);
    fails(
        CaptureInputs { damage: None, buffer_size: None, ..odd() },
        CaptureError::NoMode,
    );
}

#[test]
fn captures_that_can_be_served() {
    assert!(can_be_served(&inputs()));
    let far = |damage| CaptureInputs { damage: Some(Some(vec![damage])), ..inputs() };
    // Outside of the buffer, but within reach
    assert!(can_be_served(&far(rect(-500, 900, 30, 40))));
    assert!(!can_be_served(&far(rect(i32::MAX - 5, 0, 30, 40))));
    assert!(!can_be_served(&far(rect(0, 0, -1, 40))));
    let turned = |damage| CaptureInputs { transform: TransformDef::_180, ..far(damage) };
    assert!(can_be_served(&turned(rect(0, 0, 30, 40))));
    assert!(!can_be_served(&turned(rect(i32::MIN, 0, 30, 40))));
    let read_back = || CaptureInputs {
        buffer: CaptureBuffer::Shm(Some(XRGB8888)),
        draw_cursor: false,
        ..inputs()
    };
    assert!(can_be_served(&read_back()));
    assert!(!can_be_served(&CaptureInputs { damage: Some(None), ..read_back() }));
}
