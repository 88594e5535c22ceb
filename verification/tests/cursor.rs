use cosmic_comp::cursor::{
    choose_icons, load_cursor_env, load_icon, Cursor, CursorError, CursorStateInner, CursorStatus,
    DrawnCursor, IconFile, Image, DEFAULT_ICON,
};

/// An image of two pixels, as it is read from a file.
fn image(size: u32, delay: u32, shade: u8) -> Image {
    Image {
        size,
        width: 2,
        height: 1,
        xhot: 1,
        yhot: 0,
        delay,
        pixels_rgba: vec![shade, 1, 2, 3, shade, 5, 6, 7],
        pixels_argb: vec![3, shade, 1, 2, 7, shade, 5, 6],
    }
}

fn same(a: &Image, b: &Image) -> bool {
    a.size == b.size
        && (a.width, a.height, a.xhot, a.yhot) == (b.width, b.height, b.xhot, b.yhot)
        && a.delay == b.delay
        && a.pixels_rgba == b.pixels_rgba
        && a.pixels_argb == b.pixels_argb
}

/// A file with the given images.
fn file(images: &[Image]) -> Vec<u8> {
    let mut bytes: Vec<u8> = b"Xcur".to_vec();
    let mut put = |words: &[u32]| {
        for word in words {
            bytes.extend_from_slice(&word.to_le_bytes());
        }
    };
    put(&[16, 0x0001_0000, images.len() as u32]);
    let mut position = 16 + 12 * images.len() as u32;
    for image in images {
        put(&[0xfffd_0002, image.size, position]);
        position += 36 + image.pixels_rgba.len() as u32;
    }
    for image in images {
        put(&[36, 0xfffd_0002, image.size, 1, image.width, image.height]);
        put(&[image.xhot, image.yhot, image.delay]);
        let pixels = &image.pixels_rgba;
        for i in 0..pixels.len() / 4 {
            let pixel = [pixels[4 * i], pixels[4 * i + 1], pixels[4 * i + 2], pixels[4 * i + 3]];
            put(&[u32::from_le_bytes(pixel)]);
        }
    }
    bytes
}

#[test]
fn icons_are_read_from_files() {
    let images = vec![image(24, 50, 7), image(48, 60, 9)];
    let read = load_icon(&IconFile::Content(file(&images))).unwrap();
    assert_eq!(read.len(), 2);
    assert!(same(&read[0], &images[0]));
    assert!(same(&read[1], &images[1]));
}

#[test]
fn icons_that_cannot_be_read() {
    assert_eq!(load_icon(&IconFile::Missing).unwrap_err(), CursorError::NoDefaultCursor);
    assert_eq!(load_icon(&IconFile::Unreadable).unwrap_err(), CursorError::File);
    assert_eq!(
        load_icon(&IconFile::Content(b"no cursor".to_vec())).unwrap_err(),
        CursorError::Parse
    );
    // A hotspot beyond the image.
    let mut beyond = image(24, 50, 7);
    beyond.xhot = 3;
    assert_eq!(
        load_icon(&IconFile::Content(file(&[beyond]))).unwrap_err(),
        CursorError::Parse
    );
}

#[test]
fn default_icons_and_the_built_in_one() {
    let wanted = IconFile::Content(file(&[image(24, 0, 1)]));
    let default = IconFile::Content(file(&[image(24, 0, 2)]));
    let cursor = Cursor::load(&wanted, &default, vec![], 24);
    assert_eq!(cursor.icons[0].pixels_rgba[0], 1);
    assert_eq!(cursor.size, 24);
    let cursor = Cursor::load(&IconFile::Missing, &default, vec![], 24);
    assert_eq!(cursor.icons[0].pixels_rgba[0], 2);
    let pixels = vec![5; 64 * 64 * 4];
    let cursor = Cursor::load(&IconFile::Unreadable, &IconFile::Missing, pixels.clone(), 24);
    assert_eq!(cursor.icons.len(), 1);
    let built_in = &cursor.icons[0];
    assert_eq!(built_in.size, 32);
    assert_eq!((built_in.width, built_in.height), (64, 64));
    assert_eq!((built_in.xhot, built_in.yhot), (1, 1));
    assert_eq!(built_in.delay, 1);
    assert_eq!(built_in.pixels_rgba, pixels);
    assert!(built_in.pixels_argb.is_empty());
    let chosen = choose_icons(Err(CursorError::File), Ok(vec![image(1, 1, 1)]), vec![]);
    assert!(same(&chosen[0], &image(1, 1, 1)));
}

#[test]
fn the_nearest_size_is_shown() {
    let mut icons = vec![image(24, 0, 1), image(32, 0, 2), image(48, 0, 3)];
    icons[1].width = 3;
    icons[2].width = 4;
    let cursor = Cursor { icons, size: 24 };
    let shade = |scale| cursor.get_image(scale, 0).pixels_rgba[0];
    assert!(cursor.can_play(1) && cursor.can_play(2));
    assert_eq!(shade(1), 1);
    assert_eq!(shade(2), 3);
    assert_eq!(shade(10), 3);
    // 28 is as far from 24 as from 32: the first one wins.
    let between = Cursor { size: 28, ..cursor };
    assert_eq!(between.get_image(1, 0).pixels_rgba[0], 1);
}

#[test]
fn animations_repeat() {
    let icons = vec![image(24, 30, 1), image(24, 50, 2), image(24, 20, 3)];
    let cursor = Cursor { icons, size: 24 };
    let shade = |millis| cursor.get_image(1, millis).pixels_rgba[0];
    assert_eq!(shade(0), 1);
    assert_eq!(shade(30), 1);
    assert_eq!(shade(31), 2);
    assert_eq!(shade(80), 2);
    assert_eq!(shade(81), 3);
    assert_eq!(shade(99), 3);
    for millis in [0, 30, 99] {
        assert_eq!(shade(millis), shade(millis + 100));
        assert_eq!(shade(millis), shade(millis + 1000));
    }
}

#[test]
fn animations_keep_to_their_own_size() {
    let mut wide = image(24, 50, 9);
    wide.width = 1;
    wide.height = 2;
    let icons = vec![image(24, 30, 1), wide, image(24, 20, 3)];
    let cursor = Cursor { icons, size: 24 };
    let shade = |millis| cursor.get_image(1, millis).pixels_rgba[0];
    assert_eq!(shade(30), 1);
    assert_eq!(shade(31), 3);
    assert_eq!(shade(49), 3);
    assert_eq!(shade(50), 1);
}

#[test]
fn cursors_that_cannot_be_played() {
    assert!(!Cursor { icons: vec![], size: 24 }.can_play(1));
    let endless = Cursor { icons: vec![image(24, u32::MAX, 1), image(24, 1, 2)], size: 24 };
    assert!(!endless.can_play(1));
    let huge = Cursor { icons: vec![image(24, 0, 1)], size: u32::MAX };
    assert!(huge.can_play(1));
    assert!(!huge.can_play(2));
}

#[test]
fn shapes_are_overridden() {
    let mut state = CursorStateInner::new(24);
    assert_eq!(state.size(), 24);
    let wait = 5;
    assert_eq!(state.draw_cursor(CursorStatus::Named(wait), true), DrawnCursor::Named(wait));
    assert_eq!(state.draw_cursor(CursorStatus::Surface, true), DrawnCursor::Surface);
    assert_eq!(state.draw_cursor(CursorStatus::Hidden, true), DrawnCursor::Nothing);
    assert_eq!(
        state.draw_cursor(CursorStatus::Named(DEFAULT_ICON), false),
        DrawnCursor::Nothing
    );
    assert_eq!(
        state.draw_cursor(CursorStatus::Named(DEFAULT_ICON), true),
        DrawnCursor::Named(DEFAULT_ICON)
    );
    state.set_shape(wait);
    assert_eq!(state.draw_cursor(CursorStatus::Surface, false), DrawnCursor::Named(wait));
    assert_eq!(state.draw_cursor(CursorStatus::Hidden, false), DrawnCursor::Named(wait));
    state.unset_shape();
    assert_eq!(state.draw_cursor(CursorStatus::Hidden, true), DrawnCursor::Nothing);
}

#[test]
fn cursors_are_loaded_once() {
    let mut state = CursorStateInner::new(24);
    assert!(state.loaded_cursor(3).is_none());
    state.get_named_cursor(3, Cursor { icons: vec![image(24, 0, 1)], size: 24 });
    state.get_named_cursor(3, Cursor { icons: vec![], size: 48 });
    assert_eq!(state.loaded_cursor(3).unwrap().size, 24);
    state.get_named_cursor(4, Cursor { icons: vec![], size: 48 });
    assert_eq!(state.loaded_cursor(4).unwrap().size, 48);
    assert!(state.loaded_cursor(5).is_none());
}

#[test]
fn images_are_uploaded_once() {
    let mut state = CursorStateInner::new(24);
    assert_eq!(state.cached_image(&image(24, 0, 1)), (0, true));
    assert_eq!(state.cached_image(&image(24, 0, 2)), (1, true));
    assert_eq!(state.cached_image(&image(24, 0, 1)), (0, false));
    assert_eq!(state.cached_image(&image(24, 0, 2)), (1, false));
    assert_eq!(state.cached_image(&image(24, 5, 2)), (2, true));
    // All that an image holds counts.
    let bare = Image { pixels_argb: vec![], ..image(24, 5, 2) };
    assert_eq!(state.cached_image(&bare), (3, true));
    assert_eq!(state.cached_image(&bare), (3, false));
    assert!(same(&image(24, 5, 2).clone(), &image(24, 5, 2)));
    assert!(same(&bare.clone(), &bare));
}

#[test]
fn hotspots_are_scaled() {
    let state = CursorStateInner::new(24);
    let mut large = image(72, 0, 1);
    large.xhot = 10;
    large.yhot = 7;
    assert_eq!(state.image_placement(&large), (3, (3, 2)));
    let mut small = large;
    small.size = 16;
    assert_eq!(state.image_placement(&small), (1, (10, 7)));
}

#[test]
fn cursor_environment() {
    let env = |theme: Option<&str>, size: Option<&str>| {
        load_cursor_env(theme.map(str::to_string), size.map(str::to_string))
    };
    assert_eq!(env(None, None), ("default".to_string(), 24));
    assert_eq!(env(Some("Pop"), Some("48")), ("Pop".to_string(), 48));
    assert_eq!(env(Some(""), Some("large")), ("".to_string(), 24));
    assert_eq!(env(None, Some("-1")), ("default".to_string(), 24));
}
