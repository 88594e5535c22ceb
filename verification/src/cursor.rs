//! Cursor images: which one is shown, and when.
use std::collections::HashMap;

use vstd::prelude::*;

use crate::text;

verus! {

broadcast use vstd::std_specs::hash::group_hash_axioms;

// ---------------------------------------------------------------------------
// Images
// ---------------------------------------------------------------------------

/// An image of a cursor.
#[derive(Debug)]
pub struct Image {
    /// The nominal size.
    pub size: u32,
    pub width: u32,
    pub height: u32,
    pub xhot: u32,
    pub yhot: u32,
    /// How long it is shown, in milliseconds.
    pub delay: u32,
    /// The pixels in the order of the file.
    pub pixels_rgba: Vec<u8>,
    /// The pixels with the last byte of each put first. The built-in image has none.
    pub pixels_argb: Vec<u8>,
}

/// What an image holds.
pub struct ImageContent {
    pub size: u32,
    pub width: u32,
    pub height: u32,
    pub xhot: u32,
    pub yhot: u32,
    pub delay: u32,
    pub pixels_rgba: Seq<u8>,
    pub pixels_argb: Seq<u8>,
}

impl View for Image {
    type V = ImageContent;

    open spec fn view(&self) -> ImageContent {
        ImageContent {
            size: self.size,
            width: self.width,
            height: self.height,
            xhot: self.xhot,
            yhot: self.yhot,
            delay: self.delay,
            pixels_rgba: self.pixels_rgba@,
            pixels_argb: self.pixels_argb@,
        }
    }
}

fn copied(bytes: &Vec<u8>) -> (copy: Vec<u8>)
    ensures
        copy@ == bytes@,
{
    let mut copy: Vec<u8> = Vec::new();
    let mut i: usize = 0;
    while i < bytes.len()
        invariant
            i <= bytes@.len(),
            copy@ == bytes@.take(i as int),
        decreases bytes@.len() - i,
    {
        copy.push(bytes[i]);
        assert(copy@ =~= bytes@.take(i + 1));
        i += 1;
    }
    assert(copy@ =~= bytes@);
    copy
}

fn same_bytes(a: &Vec<u8>, b: &Vec<u8>) -> (same: bool)
    ensures
        same == (a@ == b@),
{
    if a.len() != b.len() {
        return false;
    }
    let mut i: usize = 0;
    while i < a.len()
        invariant
            i <= a@.len(),
            a@.len() == b@.len(),
            forall|j: int| 0 <= j < i ==> a@[j] == b@[j],
        decreases a@.len() - i,
    {
        if a[i] != b[i] {
            assert(a@[i as int] != b@[i as int]);
            return false;
        }
        i += 1;
    }
    assert(a@ =~= b@);
    true
}

impl Clone for Image {
    fn clone(&self) -> (image: Self)
        ensures
            image@ == self@,
    {
        Image {
            size: self.size,
            width: self.width,
            height: self.height,
            xhot: self.xhot,
            yhot: self.yhot,
            delay: self.delay,
            pixels_rgba: copied(&self.pixels_rgba),
            pixels_argb: copied(&self.pixels_argb),
        }
    }
}

/// What a list of images holds.
pub open spec fn contents(images: Seq<Image>) -> Seq<ImageContent> {
    images.map_values(|image: Image| image@)
}

fn same_image(a: &Image, b: &Image) -> (same: bool)
    ensures
        same == (a@ == b@),
{
    a.size == b.size && a.width == b.width && a.height == b.height && a.xhot == b.xhot && a.yhot
        == b.yhot && a.delay == b.delay && same_bytes(&a.pixels_rgba, &b.pixels_rgba)
        && same_bytes(&a.pixels_argb, &b.pixels_argb)
}

// ---------------------------------------------------------------------------
// Files
// ---------------------------------------------------------------------------

/// The images of an XCursor file; none where the bytes are no such file.
pub uninterp spec fn xcursor_images(content: Seq<u8>) -> Option<Seq<ImageContent>>;

/// An image has an area of at most 32767 by 32767 pixels of four bytes each, and
/// its hotspot does not lie beyond it.
pub open spec fn is_drawable(image: ImageContent) -> bool {
    &&& 0 < image.width <= 0x7FFF
    &&& 0 < image.height <= 0x7FFF
    &&& image.xhot <= image.width
    &&& image.yhot <= image.height
    &&& image.pixels_rgba.len() == 4 * image.width * image.height
}

/// Calls `xcursor::parser::parse_xcursor`, which reads the images of an XCursor
/// file. Which images a file holds is left to that function. It accepts an image
/// only where its size, hotspot and pixels are as `is_drawable` says.
#[verifier::external_body]
fn parse_images(content: &Vec<u8>) -> (images: Option<Vec<Image>>)
    ensures
        match images {
            Some(images) => xcursor_images(content@) == Some(contents(images@)) && forall|i: int|
                0 <= i < images@.len() ==> is_drawable((#[trigger] images@[i])@),
            None => xcursor_images(content@) is None,
        },
{
    let to_image = |image: xcursor::parser::Image| Image {
        size: image.size,
        width: image.width,
        height: image.height,
        xhot: image.xhot,
        yhot: image.yhot,
        delay: image.delay,
        pixels_rgba: image.pixels_rgba,
        pixels_argb: image.pixels_argb,
    };
    xcursor::parser::parse_xcursor(content).map(|images| images.into_iter().map(to_image).collect())
}

/// What a theme holds for an icon.
#[derive(Debug)]
pub enum IconFile {
    Missing,
    /// There is a file that cannot be read.
    Unreadable,
    Content(Vec<u8>),
}

#[derive(Debug, Clone, Copy, PartialEq, Eq, Structural)]
pub enum CursorError {
    /// The theme has no such cursor.
    NoDefaultCursor,
    /// The file cannot be read.
    File,
    /// The file is no XCursor file.
    Parse,
}

/// The images of an icon, as a theme holds them.
pub open spec fn icon_images(icon: IconFile) -> Result<Seq<ImageContent>, CursorError> {
    match icon {
        IconFile::Missing => Err(CursorError::NoDefaultCursor),
        IconFile::Unreadable => Err(CursorError::File),
        IconFile::Content(content) => match xcursor_images(content@) {
            Some(images) => Ok(images),
            None => Err(CursorError::Parse),
        },
    }
}

/// Reads the images of an icon.
pub fn load_icon(icon: &IconFile) -> (images: Result<Vec<Image>, CursorError>)
    ensures
        match images {
            Ok(images) => icon_images(*icon) == Ok::<Seq<ImageContent>, CursorError>(
                contents(images@),
            ),
            Err(error) => icon_images(*icon) == Err::<Seq<ImageContent>, CursorError>(error),
        },
        images matches Ok(images) ==> forall|i: int|
            0 <= i < images@.len() ==> is_drawable((#[trigger] images@[i])@),
{
    match icon {
        IconFile::Missing => Err(CursorError::NoDefaultCursor),
        IconFile::Unreadable => Err(CursorError::File),
        IconFile::Content(content) => match parse_images(content) {
            Some(images) => Ok(images),
            None => Err(CursorError::Parse),
        },
    }
}

/// A cursor: its images, and the size that it is wanted in.
#[derive(Debug)]
pub struct Cursor {
    pub icons: Vec<Image>,
    pub size: u32,
}

/// The built-in image, with the given pixels.
pub open spec fn fallback_image(pixels_rgba: Seq<u8>) -> ImageContent {
    ImageContent {
        size: 32,
        width: 64,
        height: 64,
        xhot: 1,
        yhot: 1,
        delay: 1,
        pixels_rgba,
        pixels_argb: Seq::empty(),
    }
}

/// The images of a cursor: those of its icon; or else those of the default icon; or
/// else the built-in image.
pub open spec fn chosen_images(
    icon: Result<Seq<ImageContent>, CursorError>,
    default_icon: Result<Seq<ImageContent>, CursorError>,
    fallback: Seq<u8>,
) -> Seq<ImageContent> {
    match icon {
        Ok(images) => images,
        Err(_) => match default_icon {
            Ok(images) => images,
            Err(_) => seq![fallback_image(fallback)],
        },
    }
}

/// Picks the images of a cursor out of what was read.
pub fn choose_icons(
    icon: Result<Vec<Image>, CursorError>,
    default_icon: Result<Vec<Image>, CursorError>,
    fallback: Vec<u8>,
) -> (icons: Vec<Image>)
    ensures
        match icon {
            Ok(images) => icons == images,
            Err(_) => match default_icon {
                Ok(images) => icons == images,
                Err(_) => contents(icons@) == seq![fallback_image(fallback@)],
            },
        },
{
    match icon {
        Ok(images) => images,
        Err(_) => match default_icon {
            Ok(images) => images,
            Err(_) => {
                let ghost pixels = fallback@;
                let mut icons: Vec<Image> = Vec::new();
                icons.push(
                    Image {
                        size: 32,
                        width: 64,
                        height: 64,
                        xhot: 1,
                        yhot: 1,
                        delay: 1,
                        pixels_rgba: fallback,
                        pixels_argb: Vec::new(),
                    },
                );
                assert(contents(icons@) =~= seq![fallback_image(pixels)]);
                icons
            },
        },
    }
}

// ---------------------------------------------------------------------------
// Animation
// ---------------------------------------------------------------------------

/// How far the nominal size of an image is from the wanted one.
pub open spec fn size_distance(size: u32, image: Image) -> int {
    if size >= image.size {
        size - image.size
    } else {
        image.size - size
    }
}

/// The first of the images whose nominal size is nearest to the wanted one.
pub open spec fn is_nearest(size: u32, images: Seq<Image>, k: int) -> bool {
    &&& 0 <= k < images.len()
    &&& forall|j: int|
        0 <= j < images.len() ==> size_distance(size, images[k]) <= size_distance(
            size,
            #[trigger] images[j],
        )
    &&& forall|j: int|
        0 <= j < k ==> size_distance(size, images[k]) < size_distance(size, #[trigger] images[j])
}

/// Two images have the same width and height.
pub open spec fn same_dimensions(a: Image, b: Image) -> bool {
    a.width == b.width && a.height == b.height
}

/// The time that the images with the dimensions of the given one, of the first `n`,
/// are shown for.
pub open spec fn total_delay(images: Seq<Image>, like: Image, n: nat) -> nat
    decreases n,
{
    if n == 0 {
        0
    } else {
        total_delay(images, like, (n - 1) as nat) + if same_dimensions(images[n - 1], like) {
            images[n - 1].delay as nat
        } else {
            0
        }
    }
}

/// The point in the animation at a time: the animation starts over when it has
/// ended. Without delays it stands at its start.
pub open spec fn animation_point(millis: nat, total: nat) -> nat {
    if total == 0 {
        0
    } else {
        millis % total
    }
}

/// The image with the dimensions of the given one that is shown at a point of the
/// animation: the first one that is shown up to then.
pub open spec fn is_shown(images: Seq<Image>, like: Image, point: nat, i: int) -> bool {
    &&& 0 <= i < images.len()
    &&& same_dimensions(images[i], like)
    &&& point <= total_delay(images, like, (i + 1) as nat)
    &&& forall|j: int|
        0 <= j < i && same_dimensions(#[trigger] images[j], like) ==> point > total_delay(
            images,
            like,
            (j + 1) as nat,
        )
}

/// The image that is shown at a time, for a wanted size.
pub open spec fn is_frame(images: Seq<Image>, size: u32, millis: u32, i: int) -> bool {
    exists|k: int| #[trigger]
        is_nearest(size, images, k) && is_shown(
            images,
            images[k],
            animation_point(millis as nat, total_delay(images, images[k], images.len())),
            i,
        )
}

fn nearest_image(size: u32, images: &Vec<Image>) -> (k: usize)
    requires
        images@.len() > 0,
    ensures
        is_nearest(size, images@, k as int),
{
    let mut k: usize = 0;
    let mut best: u32 = abs_diff(size, images[0].size);
    let mut i: usize = 1;
    while i < images.len()
        invariant
            0 <= k < i <= images@.len(),
            best == size_distance(size, images@[k as int]),
            forall|j: int| 0 <= j < i ==> best <= size_distance(size, #[trigger] images@[j]),
            forall|j: int| 0 <= j < k ==> best < size_distance(size, #[trigger] images@[j]),
        decreases images@.len() - i,
    {
        let distance: u32 = abs_diff(size, images[i].size);
        if distance < best {
            best = distance;
            k = i;
        }
        i += 1;
    }
    k
}

fn abs_diff(a: u32, b: u32) -> (distance: u32)
    ensures
        distance == (if a >= b {
            a - b
        } else {
            b - a
        }),
{
    if a >= b {
        a - b
    } else {
        b - a
    }
}

proof fn lemma_total_delay_grows(images: Seq<Image>, like: Image, m: nat, n: nat)
    requires
        m <= n <= images.len(),
    ensures
        total_delay(images, like, m) <= total_delay(images, like, n),
    decreases n,
{
    if m < n {
        lemma_total_delay_grows(images, like, m, (n - 1) as nat);
    }
}

/// The image that is shown at a time. Among the images with the dimensions of the
/// one that is nearest in size, each is shown for its delay, in turn.
fn frame<'a>(millis: u32, size: u32, images: &'a Vec<Image>) -> (image: &'a Image)
    requires
        images@.len() > 0,
        forall|k: int|
            is_nearest(size, images@, k) ==> #[trigger] total_delay(
                images@,
                images@[k],
                images@.len(),
            ) <= u32::MAX,
    ensures
        exists|i: int| #[trigger] is_frame(images@, size, millis, i) && *image == images@[i],
{
    let k: usize = nearest_image(size, images);
    let ghost like = images@[k as int];
    let width: u32 = images[k].width;
    let height: u32 = images[k].height;
    let ghost all = total_delay(images@, like, images@.len());
    let mut total: u32 = 0;
    let mut i: usize = 0;
    while i < images.len()
        invariant
            i <= images@.len(),
            width == like.width,
            height == like.height,
            total == total_delay(images@, like, i as nat),
            all == total_delay(images@, like, images@.len()),
            all <= u32::MAX,
        decreases images@.len() - i,
    {
        if images[i].width == width && images[i].height == height {
            proof {
                lemma_total_delay_grows(images@, like, (i + 1) as nat, images@.len());
            }
            total = total + images[i].delay;
        }
        i += 1;
    }
    let start: u32 = if total == 0 {
        0
    } else {
        millis % total
    };
    let ghost point = animation_point(millis as nat, all);
    assert(start == point);
    let mut rest: u32 = start;
    i = 0;
    while i < images.len()
        invariant
            i <= images@.len(),
            k < images@.len(),
            is_nearest(size, images@, k as int),
            like == images@[k as int],
            width == like.width,
            height == like.height,
            all == total_delay(images@, like, images@.len()),
            point == animation_point(millis as nat, all),
            point == 0 || point < all,
            rest + total_delay(images@, like, i as nat) == point,
            i > k ==> point > total_delay(images@, like, i as nat),
            forall|j: int|
                0 <= j < i && same_dimensions(#[trigger] images@[j], like) ==> point
                    > total_delay(images@, like, (j + 1) as nat),
        decreases images@.len() - i,
    {
        let image: &Image = &images[i];
        if image.width == width && image.height == height {
            if rest <= image.delay {
                proof {
                    assert(is_shown(images@, images@[k as int], point, i as int));
                    assert(is_frame(images@, size, millis, i as int));
                }
                return image;
            }
            rest = rest - image.delay;
        }
        i += 1;
    }
    // The whole animation takes longer than the point in it.
    proof {
        assert(false);
    }
    &images[0]
}

impl Cursor {
    /// Makes a cursor of what a theme holds for its icon and for the default icon.
    pub fn load(
        icon: &IconFile,
        default_icon: &IconFile,
        fallback: Vec<u8>,
        size: u32,
    ) -> (cursor: Cursor)
        ensures
            contents(cursor.icons@) == chosen_images(
                icon_images(*icon),
                icon_images(*default_icon),
                fallback@,
            ),
            cursor.size == size,
            // Read images can be drawn, and the built-in one stands alone.
            if icon_images(*icon) is Ok || icon_images(*default_icon) is Ok {
                forall|i: int|
                    0 <= i < cursor.icons@.len() ==> is_drawable((#[trigger] cursor.icons@[i])@)
            } else {
                contents(cursor.icons@) == seq![fallback_image(fallback@)]
            },
            forall|i: int|
                0 <= i < cursor.icons@.len() ==> (#[trigger] cursor.icons@[i]).xhot <= 0x7FFF
                    && cursor.icons@[i].yhot <= 0x7FFF,
    {
        let ghost pixels = fallback@;
        let icons: Vec<Image> = choose_icons(load_icon(icon), load_icon(default_icon), fallback);
        proof {
            assert forall|i: int| 0 <= i < icons@.len() implies (#[trigger] icons@[i]).xhot <= 0x7FFF
                && icons@[i].yhot <= 0x7FFF by {
                assert(contents(icons@)[i] == icons@[i]@);
                if icon_images(*icon) is Ok || icon_images(*default_icon) is Ok {
                    assert(is_drawable(icons@[i]@));
                } else {
                    assert(contents(icons@).len() == icons@.len());
                    assert(icons@[i]@ == fallback_image(pixels));
                }
            }
        }
        Cursor { icons, size }
    }

    /// The animation of the images that fit the wanted size can be timed.
    pub open spec fn playable(&self, scale: u32) -> bool {
        &&& self.icons@.len() > 0
        &&& self.size * scale <= u32::MAX
        &&& forall|k: int|
            is_nearest((self.size * scale) as u32, self.icons@, k) ==> #[trigger] total_delay(
                self.icons@,
                self.icons@[k],
                self.icons@.len(),
            ) <= u32::MAX
    }

    /// Whether the images that fit the wanted size can be played.
    pub fn can_play(&self, scale: u32) -> (yes: bool)
        ensures
            yes == self.playable(scale),
    {
        if self.icons.len() == 0 {
            return false;
        }
        proof {
            let (a, b) = (self.size as int, scale as int);
            assert(0 <= a * b <= 0xFFFF_FFFF * 0xFFFF_FFFF) by (nonlinear_arith)
                requires
                    0 <= a <= 0xFFFF_FFFF,
                    0 <= b <= 0xFFFF_FFFF,
            ;
        }
        let wanted: u64 = self.size as u64 * scale as u64;
        if wanted > u32::MAX as u64 {
            return false;
        }
        let k: usize = nearest_image(wanted as u32, &self.icons);
        let ghost like = self.icons@[k as int];
        let mut total: u64 = 0;
        let mut i: usize = 0;
        while i < self.icons.len()
            invariant
                i <= self.icons@.len(),
                k < self.icons@.len(),
                wanted == self.size * scale,
                wanted <= u32::MAX,
                is_nearest(wanted as u32, self.icons@, k as int),
                like == self.icons@[k as int],
                total == total_delay(self.icons@, like, i as nat),
                total <= u32::MAX,
            decreases self.icons@.len() - i,
        {
            if self.icons[i].width == self.icons[k].width && self.icons[i].height
                == self.icons[k].height {
                total = total + self.icons[i].delay as u64;
                if total > u32::MAX as u64 {
                    proof {
                        lemma_total_delay_grows(
                            self.icons@,
                            like,
                            (i + 1) as nat,
                            self.icons@.len(),
                        );
                        assert(total_delay(self.icons@, self.icons@[k as int], self.icons@.len())
                            > u32::MAX);
                    }
                    return false;
                }
            }
            i += 1;
        }
        proof {
            assert forall|j: int| is_nearest(wanted as u32, self.icons@, j) implies
                #[trigger] total_delay(self.icons@, self.icons@[j], self.icons@.len())
                <= u32::MAX by {
                assert(self.icons@[j] == self.icons@[j] && self.icons@[k as int]
                    == self.icons@[k as int]);
                assert(j == k);
            }
        }
        true
    }

    /// The image that is shown at a time, at a scale.
    pub fn get_image(&self, scale: u32, millis: u32) -> (image: &Image)
        requires
            self.playable(scale),
        ensures
            exists|i: int| #[trigger]
                is_frame(self.icons@, (self.size * scale) as u32, millis, i) && *image
                    == self.icons@[i],
    {
        frame(millis, self.size * scale, &self.icons)
    }
}

/// At each time only one image is shown.
pub proof fn lemma_frame_is_unique(images: Seq<Image>, size: u32, millis: u32, i: int, j: int)
    requires
        is_frame(images, size, millis, i),
        is_frame(images, size, millis, j),
    ensures
        i == j,
{
    let a = choose|k: int| #[trigger]
        is_nearest(size, images, k) && is_shown(
            images,
            images[k],
            animation_point(millis as nat, total_delay(images, images[k], images.len())),
            i,
        );
    let b = choose|k: int| #[trigger]
        is_nearest(size, images, k) && is_shown(
            images,
            images[k],
            animation_point(millis as nat, total_delay(images, images[k], images.len())),
            j,
        );
    assert(images[a] == images[a] && images[b] == images[b]);
    assert(a == b);
    if i < j {
        assert(same_dimensions(images[i], images[a]));
    } else if j < i {
        assert(same_dimensions(images[j], images[a]));
    }
}

/// The animation repeats: after its whole time the same image is shown again.
pub proof fn lemma_animation_repeats(
    images: Seq<Image>,
    size: u32,
    millis: u32,
    later: u32,
    k: int,
    i: int,
)
    requires
        is_nearest(size, images, k),
        later == millis + total_delay(images, images[k], images.len()),
        is_frame(images, size, millis, i),
    ensures
        is_frame(images, size, later, i),
{
    let a = choose|a: int| #[trigger]
        is_nearest(size, images, a) && is_shown(
            images,
            images[a],
            animation_point(millis as nat, total_delay(images, images[a], images.len())),
            i,
        );
    assert(images[a] == images[a] && images[k] == images[k]);
    assert(a == k);
    let total = total_delay(images, images[k], images.len());
    if total > 0 {
        vstd::arithmetic::div_mod::lemma_mod_add_multiples_vanish(millis as int, total as int);
        assert((millis + total) % (total as int) == millis as int % (total as int));
    }
}

// ---------------------------------------------------------------------------
// The cursor of a seat
// ---------------------------------------------------------------------------

/// The number of the default icon.
pub const DEFAULT_ICON: u32 = 0;

/// What the client under the pointer wants to be shown. Icons are given by numbers.
#[derive(Debug, Clone, Copy, PartialEq, Eq, Structural)]
pub enum CursorStatus {
    Hidden,
    Named(u32),
    Surface,
}

/// What is drawn.
#[derive(Debug, Clone, Copy, PartialEq, Eq, Structural)]
pub enum DrawnCursor {
    Nothing,
    Named(u32),
    Surface,
}

/// The cursors of a seat.
#[derive(Debug)]
pub struct CursorStateInner {
    /// An icon that the compositor shows in place of what clients want.
    pub current_cursor: Option<u32>,
    pub cursor_size: u32,
    /// The cursors that were loaded already, by their icons.
    pub cursors: HashMap<u32, Cursor>,
    /// The images that were uploaded already.
    pub image_cache: Vec<Image>,
}

/// The first image of the cache that holds the same, from index `i` on.
pub open spec fn image_from(images: Seq<Image>, content: ImageContent, i: int) -> Option<int>
    decreases images.len() - i,
{
    if i < 0 || i >= images.len() {
        None
    } else if images[i]@ == content {
        Some(i)
    } else {
        image_from(images, content, i + 1)
    }
}

impl CursorStateInner {
    pub fn new(cursor_size: u32) -> (state: Self)
        ensures
            state.current_cursor is None,
            state.cursor_size == cursor_size,
            state.cursors@ == Map::<u32, Cursor>::empty(),
            state.image_cache@.len() == 0,
    {
        CursorStateInner {
            current_cursor: None,
            cursor_size,
            cursors: HashMap::new(),
            image_cache: Vec::new(),
        }
    }

    pub fn set_shape(&mut self, shape: u32)
        ensures
            *final(self) == (CursorStateInner { current_cursor: Some(shape), ..*old(self) }),
    {
        self.current_cursor = Some(shape);
    }

    pub fn unset_shape(&mut self)
        ensures
            *final(self) == (CursorStateInner { current_cursor: None, ..*old(self) }),
    {
        self.current_cursor = None;
    }

    pub fn size(&self) -> (size: u32)
        ensures
            size == self.cursor_size,
    {
        self.cursor_size
    }

    /// The cursor of an icon, where it was loaded already.
    pub fn loaded_cursor(&self, shape: u32) -> (cursor: Option<&Cursor>)
        ensures
            cursor == (if self.cursors@.contains_key(shape) {
                Some(&self.cursors@[shape])
            } else {
                None
            }),
    {
        self.cursors.get(&shape)
    }

    /// Takes the cursor of an icon, unless one was loaded already.
    pub fn get_named_cursor(&mut self, shape: u32, loaded: Cursor)
        ensures
            *final(self) == (CursorStateInner { cursors: final(self).cursors, ..*old(self) }),
            final(self).cursors@ == (if old(self).cursors@.contains_key(shape) {
                old(self).cursors@
            } else {
                old(self).cursors@.insert(shape, loaded)
            }),
    {
        if !self.cursors.contains_key(&shape) {
            self.cursors.insert(shape, loaded);
        }
    }

    /// What is drawn: an icon that the compositor shows goes first. The default icon
    /// is left out where it is drawn elsewhere.
    pub fn draw_cursor(&self, status: CursorStatus, draw_default: bool) -> (drawn: DrawnCursor)
        ensures
            drawn == ({
                let named = match self.current_cursor {
                    Some(shape) => Some(shape),
                    None => match status {
                        CursorStatus::Named(shape) => Some(shape),
                        _ => None,
                    },
                };
                match named {
                    Some(shape) => if !draw_default && shape == DEFAULT_ICON {
                        DrawnCursor::Nothing
                    } else {
                        DrawnCursor::Named(shape)
                    },
                    None => if status is Surface {
                        DrawnCursor::Surface
                    } else {
                        DrawnCursor::Nothing
                    },
                }
            }),
    {
        let named: Option<u32> = match self.current_cursor {
            Some(shape) => Some(shape),
            None => match status {
                CursorStatus::Named(shape) => Some(shape),
                _ => None,
            },
        };
        match named {
            Some(shape) => if !draw_default && shape == DEFAULT_ICON {
                DrawnCursor::Nothing
            } else {
                DrawnCursor::Named(shape)
            },
            None => match status {
                CursorStatus::Surface => DrawnCursor::Surface,
                _ => DrawnCursor::Nothing,
            },
        }
    }

    /// How much larger an image is than the size of the cursor, rounded down and at
    /// least one.
    pub open spec fn scale_of(&self, image: Image) -> int {
        let scale = image.size as int / self.cursor_size as int;
        if scale >= 1 {
            scale
        } else {
            1
        }
    }

    /// The scale of an image, and its hotspot in the units of that scale.
    pub fn image_placement(&self, image: &Image) -> (placement: (u32, (i32, i32)))
        requires
            self.cursor_size > 0,
            image.xhot <= i32::MAX,
            image.yhot <= i32::MAX,
        ensures
            placement.0 == self.scale_of(*image),
            placement.1.0 == image.xhot as int / self.scale_of(*image),
            placement.1.1 == image.yhot as int / self.scale_of(*image),
    {
        let quotient: u32 = image.size / self.cursor_size;
        let scale: u32 = if quotient >= 1 {
            quotient
        } else {
            1
        };
        proof {
            vstd::arithmetic::div_mod::lemma_div_is_ordered_by_denominator(
                image.xhot as int,
                1,
                scale as int,
            );
            vstd::arithmetic::div_mod::lemma_div_is_ordered_by_denominator(
                image.yhot as int,
                1,
                scale as int,
            );
        }
        (scale, ((image.xhot / scale) as i32, (image.yhot / scale) as i32))
    }

    /// The index of an image in the cache, and whether it was added just now and is
    /// to be uploaded.
    pub fn cached_image(&mut self, image: &Image) -> (cached: (usize, bool))
        ensures
            *final(self) == (CursorStateInner {
                image_cache: final(self).image_cache,
                ..*old(self)
            }),
            match image_from(old(self).image_cache@, image@, 0) {
                Some(i) => cached == (i as usize, false) && final(self).image_cache@ == old(
                    self,
                ).image_cache@,
                None => {
                    &&& cached.0 == old(self).image_cache@.len()
                    &&& cached.1
                    &&& final(self).image_cache@.len() == old(self).image_cache@.len() + 1
                    &&& final(self).image_cache@.drop_last() == old(self).image_cache@
                },
            },
            final(self).image_cache@[cached.0 as int]@ == image@,
    {
        let mut i: usize = 0;
        while i < self.image_cache.len()
            invariant
                i <= self.image_cache@.len(),
                *self == *old(self),
                image_from(self.image_cache@, image@, 0) == image_from(
                    self.image_cache@,
                    image@,
                    i as int,
                ),
            decreases self.image_cache@.len() - i,
        {
            if same_image(&self.image_cache[i], image) {
                return (i, false);
            }
            i += 1;
        }
        self.image_cache.push(image.clone());
        assert(self.image_cache@.drop_last() =~= old(self).image_cache@);
        (i, true)
    }
}

/// An image is not uploaded twice: once it is in the cache it is found there.
pub proof fn lemma_cached_image_is_found(images: Seq<Image>, content: ImageContent, at: int, i: int)
    requires
        0 <= i <= at < images.len(),
        images[at]@ == content,
    ensures
        image_from(images, content, i) is Some,
    decreases at - i,
{
    if i < at {
        lemma_cached_image_is_found(images, content, at, i + 1);
    }
}

// ---------------------------------------------------------------------------
// Environment
// ---------------------------------------------------------------------------

/// The size of cursors where the environment gives none.
pub const DEFAULT_CURSOR_SIZE: u32 = 24;

/// The name of the cursor theme and the size of cursors, by the values of
/// `XCURSOR_THEME` and `XCURSOR_SIZE`.
pub fn load_cursor_env(theme: Option<String>, size: Option<String>) -> (env: (String, u32))
    ensures
        env.0@ == match theme {
            Some(name) => name@,
            None => "default"@,
        },
        env.1 == match size {
            Some(size) => match text::parsed_u32(size@) {
                Some(number) => number,
                None => DEFAULT_CURSOR_SIZE as nat,
            },
            None => DEFAULT_CURSOR_SIZE as nat,
        },
{
    let name: String = match theme {
        Some(name) => name,
        None => "default".to_owned(),
    };
    let number: u32 = match size {
        Some(size) => match text::parse_u32(size.as_str()) {
            Some(number) => number,
            None => DEFAULT_CURSOR_SIZE,
        },
        None => DEFAULT_CURSOR_SIZE,
    };
    (name, number)
}

/// No image is nearer to the wanted size than the nearest one, be it larger or smaller; and
/// of two that are equally near the first counts.
pub proof fn lemma_nearest_is_nearest(size: u32, images: Seq<Image>, k: int, j: int)
    requires
        is_nearest(size, images, k),
        0 <= j < images.len(),
    ensures
        0 <= k < images.len(),
        ({
            let (near, far) = (images[k].size - size, images[j].size - size);
            &&& near <= far || near <= -far
            &&& -near <= far || -near <= -far
            &&& (near == far || near == -far) ==> k <= j
        }),
{
    assert(images[j] == images[j]);
}

/// Only images of the same width and height as the nearest take part in the animation, and
/// each adds its own delay to it.
pub proof fn lemma_animation_adds_up(images: Seq<Image>, like: Image, n: nat)
    requires
        n < images.len(),
    ensures
        total_delay(images, like, 0) == 0,
        images[n as int].width == like.width && images[n as int].height == like.height
            ==> total_delay(images, like, n + 1) == total_delay(images, like, n)
            + images[n as int].delay,
        images[n as int].width != like.width || images[n as int].height != like.height
            ==> total_delay(images, like, n + 1) == total_delay(images, like, n),
{
}

/// An image is shown from the end of those before it for as long as its delay; at the very
/// start it is the first one. An image of other dimensions is never shown.
pub proof fn lemma_images_take_turns(images: Seq<Image>, like: Image, point: nat, i: int)
    requires
        0 <= i < images.len(),
    ensures
        ({
            let start = total_delay(images, like, i as nat);
            let fits = images[i].width == like.width && images[i].height == like.height;
            &&& is_shown(images, like, point, i) ==> fits && start <= point <= start
                + images[i].delay
            &&& fits && start < point <= start + images[i].delay ==> is_shown(
                images,
                like,
                point,
                i,
            )
            &&& is_shown(images, like, 0, i) <==> fits && forall|j: int|
                0 <= j < i ==> (#[trigger] images[j]).width != like.width || images[j].height
                    != like.height
        }),
{
    let start = total_delay(images, like, i as nat);
    if is_shown(images, like, point, i) && point < start {
        let j = lemma_last_before(images, like, i);
        assert(same_dimensions(images[j], like));
    }
    if same_dimensions(images[i], like) && start < point <= start + images[i].delay {
        assert forall|j: int| 0 <= j < i && same_dimensions(#[trigger] images[j], like) implies point
            > total_delay(images, like, (j + 1) as nat) by {
            lemma_total_delay_grows(images, like, (j + 1) as nat, i as nat);
        }
    }
    if is_shown(images, like, 0, i) {
        assert forall|j: int| 0 <= j < i implies (#[trigger] images[j]).width != like.width
            || images[j].height != like.height by {
            assert(!same_dimensions(images[j], like));
        }
    }
}

/// Where something was shown before, the last of it ends where the next image starts.
proof fn lemma_last_before(images: Seq<Image>, like: Image, i: int) -> (j: int)
    requires
        0 <= i <= images.len(),
        total_delay(images, like, i as nat) > 0,
    ensures
        0 <= j < i,
        same_dimensions(images[j], like),
        total_delay(images, like, (j + 1) as nat) == total_delay(images, like, i as nat),
    decreases i,
{
    if same_dimensions(images[i - 1], like) {
        i - 1
    } else {
        lemma_last_before(images, like, i - 1)
    }
}

/// The animation stands at what is left of the time after whole rounds of it; one that
/// takes no time stands at its start.
pub proof fn lemma_animation_starts_over(millis: nat, total: nat)
    ensures
        total == 0 ==> animation_point(millis, total) == 0,
        total > 0 ==> animation_point(millis, total) < total && animation_point(millis, total)
            <= millis,
        total > 0 ==> exists|rounds: int|
            millis == #[trigger] (rounds * total) + animation_point(millis, total),
        millis < total ==> animation_point(millis, total) == millis,
{
    if total > 0 {
        let (t, rounds) = (total as int, millis as int / total as int);
        vstd::arithmetic::div_mod::lemma_fundamental_div_mod(millis as int, t);
        vstd::arithmetic::div_mod::lemma_mod_bound(millis as int, t);
        vstd::arithmetic::div_mod::lemma_div_pos_is_pos(millis as int, t);
        assert(t * rounds == rounds * total) by (nonlinear_arith)
            requires
                t == total,
        ;
        assert(0 <= rounds * total) by (nonlinear_arith)
            requires
                0 <= rounds,
        ;
        assert(millis == rounds * total + animation_point(millis, total));
        if millis < total {
            vstd::arithmetic::div_mod::lemma_small_mod(millis, total);
        }
    }
}

/// An image larger than the cursor is scaled down by the whole times that the size of the
/// cursor goes into its own; no image is scaled up.
pub proof fn lemma_images_are_scaled_down(state: CursorStateInner, image: Image)
    requires
        state.cursor_size > 0,
    ensures
        state.scale_of(image) >= 1,
        image.size < state.cursor_size ==> state.scale_of(image) == 1,
        image.size >= state.cursor_size ==> state.scale_of(image) * state.cursor_size <= image.size
            < (state.scale_of(image) + 1) * state.cursor_size,
{
    let (a, b) = (image.size as int, state.cursor_size as int);
    let q = a / b;
    vstd::arithmetic::div_mod::lemma_fundamental_div_mod(a, b);
    vstd::arithmetic::div_mod::lemma_mod_bound(a, b);
    assert(b * q == q * b && (q + 1) * b == q * b + b) by (nonlinear_arith);
    if a < b {
        vstd::arithmetic::div_mod::lemma_basic_div(a, b);
    } else if q < 1 {
        assert(q * b <= 0) by (nonlinear_arith)
            requires
                q <= 0,
                0 < b,
        ;
    }
}

/// An icon that can be read is shown, even where the default icon cannot be; one that cannot
/// be read gives way to the default icon, and both to the built-in image.
pub proof fn lemma_icons_give_way(icon: IconFile, default_icon: IconFile, fallback: Seq<u8>)
    ensures
        ({
            let images = chosen_images(icon_images(icon), icon_images(default_icon), fallback);
            &&& icon_images(icon) matches Ok(own) ==> images == own
            &&& icon_images(icon) is Err && icon_images(default_icon) is Ok ==> images
                == icon_images(default_icon)->Ok_0
            &&& icon_images(icon) is Err && icon_images(default_icon) is Err ==> images.len() == 1
                && images[0].pixels_rgba == fallback && images[0].width == 64 && images[0].height
                == 64 && images[0].size == 32 && images[0].xhot == 1 && images[0].yhot == 1
                && images[0].delay == 1 && images[0].pixels_argb.len() == 0
        }),
        icon_images(icon) == Err::<Seq<ImageContent>, CursorError>(CursorError::NoDefaultCursor)
            <==> icon is Missing,
        icon_images(icon) == Err::<Seq<ImageContent>, CursorError>(CursorError::File)
            <==> icon is Unreadable,
        icon matches IconFile::Content(content) ==> (icon_images(icon) is Ok <==> xcursor_images(
            content@,
        ) is Some) && (xcursor_images(content@) matches Some(images) ==> icon_images(icon)
            == Ok::<Seq<ImageContent>, CursorError>(images)),
{
}

/// The cache holds an image where the first one with the same content stands.
pub proof fn lemma_first_cached_image_counts(images: Seq<Image>, content: ImageContent, i: int)
    requires
        0 <= i,
    ensures
        match image_from(images, content, i) {
            Some(k) => {
                &&& i <= k < images.len()
                &&& images[k]@ == content
                &&& forall|j: int| i <= j < k ==> (#[trigger] images[j])@ != content
            },
            None => forall|j: int| i <= j < images.len() ==> (#[trigger] images[j])@ != content,
        },
    decreases images.len() - i,
{
    if i < images.len() {
        lemma_first_cached_image_counts(images, content, i + 1);
    }
}

/// A cursor whose wanted size can be named can be played exactly if it has images, and the
/// images that take part take no longer than can be named.
pub proof fn lemma_playable_cursors(cursor: Cursor, scale: u32, wanted: u32, k: int)
    requires
        wanted == cursor.size * scale,
        cursor.icons@.len() > 0 ==> is_nearest(wanted, cursor.icons@, k),
    ensures
        cursor.playable(scale) <==> cursor.icons@.len() > 0 && total_delay(
            cursor.icons@,
            cursor.icons@[k],
            cursor.icons@.len(),
        ) < 0x1_0000_0000,
{
    let icons = cursor.icons@;
    if icons.len() > 0 {
        assert(total_delay(icons, icons[k], icons.len()) == total_delay(
            icons,
            icons[k],
            icons.len(),
        ));
        assert forall|j: int| is_nearest(wanted, icons, j) implies #[trigger] total_delay(
            icons,
            icons[j],
            icons.len(),
        ) == total_delay(icons, icons[k], icons.len()) by {
            lemma_nearest_is_nearest(wanted, icons, k, j);
            lemma_nearest_is_nearest(wanted, icons, j, k);
        }
    }
}

} // verus!
