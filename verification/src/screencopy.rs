//! How screen captures are served from a frame.
use vstd::prelude::*;

use crate::geometry;
use crate::geometry::{transform_rect_in, Rect};
use crate::output_config::TransformDef;
use crate::surface::ABGR16161616F;

verus! {

/// The buffer that a client wants the capture in.
#[derive(Debug, Clone, Copy, PartialEq, Eq, Structural)]
pub enum CaptureBuffer {
    Dmabuf,
    /// Shared memory in a format; none where the buffer cannot be read.
    Shm(Option<u32>),
}

#[derive(Debug, Clone, Copy, PartialEq, Eq, Structural)]
pub enum CaptureError {
    /// The output has no mode, or the buffer cannot be read.
    NoMode,
    /// The size of the buffer is not known.
    ImportFailed,
}

/// The age of the content of a capture's buffer, by which damage is tracked.
/// Shared memory is always filled anew.
pub fn buffer_age(buffer: CaptureBuffer) -> (age: usize)
    ensures
        age == (if buffer is Shm {
            0int
        } else {
            1
        }),
{
    match buffer {
        CaptureBuffer::Shm(_) => 0,
        CaptureBuffer::Dmabuf => 1,
    }
}

/// Whether some capture leaves the cursor out, given for each whether it draws it.
pub fn has_cursor_mode_none(draw_cursor: &Vec<bool>) -> (yes: bool)
    ensures
        yes == draw_cursor@.contains(false),
{
    let mut i: usize = 0;
    while i < draw_cursor.len()
        invariant
            i <= draw_cursor@.len(),
            forall|j: int| 0 <= j < i ==> draw_cursor@[j],
        decreases draw_cursor@.len() - i,
    {
        if !draw_cursor[i] {
            assert(draw_cursor@[i as int] == false);
            return true;
        }
        i += 1;
    }
    false
}

/// What a capture depends on.
#[derive(Debug)]
pub struct CaptureInputs {
    /// The damage since the last capture, where there is any; the outer value is
    /// absent where the output has no mode.
    pub damage: Option<Option<Vec<Rect>>>,
    pub buffer: CaptureBuffer,
    pub buffer_size: Option<(i32, i32)>,
    pub draw_cursor: bool,
    /// The picture that the frame was postprocessed from, with its format.
    pub texture: Option<Option<u32>>,
    /// Where the cursor lies, if it has a picture of its own.
    pub cursor: Option<Rect>,
    pub output_has_mode: bool,
    pub transform: TransformDef,
    /// The reference white that the picture was scaled by; zero for none.
    pub capture_white: u32,
    /// Whether tone-down of linear pictures is asked for.
    pub tone_down: bool,
}

/// Where a capture is drawn to.
#[derive(Debug, Clone, Copy, PartialEq, Eq, Structural)]
pub enum CaptureTarget {
    /// The client's buffer.
    Dmabuf,
    /// A new buffer in the given format, to be read back.
    Renderbuffer(u32),
    /// The picture itself is read back.
    Texture,
}

/// How a capture is drawn.
#[derive(Debug)]
pub enum CaptureDraw {
    /// Nothing changed.
    Nothing,
    /// Through the shader that turns linear light into sRGB, with the scale in
    /// units of `1 / 10000`; then the cursor, with its damage.
    ToneDown { ref_white_scale: u32, damage: Vec<Rect>, cursor: Option<Vec<Rect>> },
    /// By copying the damaged parts of the picture; then the cursor.
    Blit { damage: Vec<Rect>, cursor: Option<Vec<Rect>> },
    /// The picture is the capture.
    UseTexture,
    /// By copying from the frame, without its cursor elements where they are hidden.
    FrameResult { damage: Vec<Rect>, hide_cursor: bool },
}

/// How a capture is served.
#[derive(Debug)]
pub struct CapturePlan {
    pub target: CaptureTarget,
    pub draw: CaptureDraw,
}

/// A capture into shared memory needs no buffer of its own where the picture has
/// the same format and no cursor is to be added.
pub open spec fn reads_texture(inputs: CaptureInputs) -> bool {
    &&& inputs.buffer matches CaptureBuffer::Shm(Some(format))
    &&& inputs.texture == Some(Some(format))
    &&& !inputs.draw_cursor || inputs.cursor is None
}

/// Whether a linear picture is turned into sRGB.
pub open spec fn tones_down(inputs: CaptureInputs) -> bool {
    inputs.capture_white > 0 && inputs.texture == Some(Some(ABGR16161616F)) && inputs.tone_down
}

/// The size of the buffer, as the output is turned.
pub open spec fn turned_size(size: (i32, i32), transform: TransformDef) -> (i32, i32) {
    if geometry::swaps_axes(transform) {
        (size.1, size.0)
    } else {
        size
    }
}

/// Damage of the output in the coordinates of the buffer.
pub open spec fn adjusted(rect: Rect, transform: TransformDef, size: (i32, i32)) -> Rect {
    geometry::transformed(geometry::inverse(transform), rect, turned_size(size, transform))
}

pub open spec fn adjusted_damage(
    damage: Seq<Rect>,
    transform: TransformDef,
    size: (i32, i32),
) -> Seq<Rect> {
    damage.map_values(|rect: Rect| adjusted(rect, transform, size))
}

/// The damage of the cursor, relative to it: what the first `n` parts of the damage
/// have in common with it.
pub open spec fn cursor_damage(damage: Seq<Rect>, cursor: Rect, n: nat) -> Seq<Rect>
    decreases n,
{
    if n == 0 {
        Seq::empty()
    } else {
        let less = cursor_damage(damage, cursor, (n - 1) as nat);
        match cursor.common(damage[n - 1]) {
            Some(rect) => less.push(
                Rect {
                    x: (rect.x - cursor.x) as i32,
                    y: (rect.y - cursor.y) as i32,
                    w: rect.w,
                    h: rect.h,
                },
            ),
            None => less,
        }
    }
}

/// The damage to redraw the cursor in, where the capture adds it.
pub open spec fn cursor_part(inputs: CaptureInputs, damage: Seq<Rect>) -> Option<Seq<Rect>> {
    match inputs.cursor {
        Some(cursor) => if inputs.draw_cursor {
            Some(cursor_damage(damage, cursor, damage.len()))
        } else {
            None
        },
        None => None,
    }
}

/// The damage can be converted, and so can what it has in common with the cursor.
pub open spec fn damage_fits(inputs: CaptureInputs) -> bool {
    &&& inputs.cursor matches Some(cursor) ==> cursor.valid()
    &&& inputs.damage matches Some(Some(damage)) ==> inputs.buffer_size matches Some(size) ==> (
    forall|i: int|
        0 <= i < damage@.len() ==> geometry::transform_fits(
            geometry::inverse(inputs.transform),
            #[trigger] damage@[i],
            turned_size(size, inputs.transform),
        ) && adjusted(damage@[i], inputs.transform, size).valid())
}

/// The error of a capture that cannot be served.
pub open spec fn capture_error(inputs: CaptureInputs) -> Option<CaptureError> {
    match inputs.damage {
        None => Some(CaptureError::NoMode),
        Some(damage) => if inputs.buffer_size is None {
            Some(CaptureError::ImportFailed)
        } else if inputs.buffer == CaptureBuffer::Shm(None) {
            Some(CaptureError::NoMode)
        } else if damage is Some && !inputs.output_has_mode {
            Some(CaptureError::NoMode)
        } else {
            None
        },
    }
}

/// Where the capture is drawn to.
pub open spec fn capture_target(inputs: CaptureInputs) -> CaptureTarget {
    match inputs.buffer {
        CaptureBuffer::Dmabuf => CaptureTarget::Dmabuf,
        CaptureBuffer::Shm(format) => if reads_texture(inputs) {
            CaptureTarget::Texture
        } else {
            CaptureTarget::Renderbuffer(format->0)
        },
    }
}

/// A list of rectangles, or none, is the expected one.
pub open spec fn same_cursor(cursor: Option<Vec<Rect>>, expected: Option<Seq<Rect>>) -> bool {
    match cursor {
        Some(rects) => expected == Some(rects@),
        None => expected is None,
    }
}

/// How a capture that can be served is drawn.
pub open spec fn is_capture_draw(draw: CaptureDraw, inputs: CaptureInputs) -> bool {
    match inputs.damage->0 {
        None => draw is Nothing,
        Some(damage) => {
            let parts = adjusted_damage(damage@, inputs.transform, inputs.buffer_size->0);
            if inputs.texture is None {
                draw matches CaptureDraw::FrameResult { damage, hide_cursor } && damage@ == parts
                    && hide_cursor == !inputs.draw_cursor
            } else if tones_down(inputs) {
                draw matches CaptureDraw::ToneDown { ref_white_scale, damage, cursor }
                    && ref_white_scale == inputs.capture_white && damage@ == parts && same_cursor(
                    cursor,
                    cursor_part(inputs, parts),
                )
            } else if reads_texture(inputs) {
                draw is UseTexture
            } else {
                draw matches CaptureDraw::Blit { damage, cursor } && damage@ == parts
                    && same_cursor(cursor, cursor_part(inputs, parts))
            }
        },
    }
}

fn adjust_all(damage: &Vec<Rect>, transform: TransformDef, size: (i32, i32)) -> (rects: Vec<Rect>)
    requires
        forall|i: int|
            0 <= i < damage@.len() ==> geometry::transform_fits(
                geometry::inverse(transform),
                #[trigger] damage@[i],
                turned_size(size, transform),
            ),
    ensures
        rects@ == adjusted_damage(damage@, transform, size),
{
    let inverted: TransformDef = geometry::invert(transform);
    let area: (i32, i32) = if geometry::is_sideways(transform) {
        (size.1, size.0)
    } else {
        size
    };
    let mut rects: Vec<Rect> = Vec::new();
    let mut i: usize = 0;
    while i < damage.len()
        invariant
            i <= damage@.len(),
            inverted == geometry::inverse(transform),
            area == turned_size(size, transform),
            forall|k: int|
                0 <= k < damage@.len() ==> geometry::transform_fits(
                    inverted,
                    #[trigger] damage@[k],
                    area,
                ),
            rects@.len() == i,
            forall|k: int| 0 <= k < i ==> #[trigger] rects@[k] == adjusted(damage@[k], transform, size),
        decreases damage@.len() - i,
    {
        assert(geometry::transform_fits(inverted, damage@[i as int], area));
        rects.push(transform_rect_in(inverted, damage[i], area));
        i += 1;
    }
    assert(rects@ =~= adjusted_damage(damage@, transform, size));
    rects
}

fn damage_of_cursor(damage: &Vec<Rect>, cursor: Rect) -> (rects: Vec<Rect>)
    requires
        geometry::all_valid(damage@),
        cursor.valid(),
    ensures
        rects@ == cursor_damage(damage@, cursor, damage@.len()),
{
    let mut rects: Vec<Rect> = Vec::new();
    let mut i: usize = 0;
    while i < damage.len()
        invariant
            i <= damage@.len(),
            geometry::all_valid(damage@),
            cursor.valid(),
            rects@ == cursor_damage(damage@, cursor, i as nat),
        decreases damage@.len() - i,
    {
        match cursor.intersection(damage[i]) {
            Some(rect) => {
                rects.push(
                    Rect { x: rect.x - cursor.x, y: rect.y - cursor.y, w: rect.w, h: rect.h },
                );
            },
            None => {},
        }
        i += 1;
    }
    rects
}

/// The error of a capture that cannot be served.
pub fn refusal(inputs: &CaptureInputs) -> (error: Option<CaptureError>)
    ensures
        error == capture_error(*inputs),
{
    let changed: bool = match &inputs.damage {
        None => {
            return Some(CaptureError::NoMode);
        },
        Some(damage) => damage.is_some(),
    };
    if inputs.buffer_size.is_none() {
        return Some(CaptureError::ImportFailed);
    }
    match inputs.buffer {
        CaptureBuffer::Shm(None) => {
            return Some(CaptureError::NoMode);
        },
        _ => {},
    }
    if changed && !inputs.output_has_mode {
        Some(CaptureError::NoMode)
    } else {
        None
    }
}

fn is_read_back(inputs: &CaptureInputs) -> (yes: bool)
    ensures
        yes == reads_texture(*inputs),
{
    match (inputs.buffer, inputs.texture) {
        (CaptureBuffer::Shm(Some(format)), Some(Some(other))) => other == format && (
        !inputs.draw_cursor || inputs.cursor.is_none()),
        _ => false,
    }
}

fn is_toned_down(inputs: &CaptureInputs) -> (yes: bool)
    ensures
        yes == tones_down(*inputs),
{
    match inputs.texture {
        Some(Some(format)) => inputs.capture_white > 0 && format == ABGR16161616F
            && inputs.tone_down,
        _ => false,
    }
}

/// What a capture that can be served must not ask for: to read back from the picture
/// what is toned down or unchanged, or to draw where no coordinates reach.
pub open spec fn is_servable(inputs: CaptureInputs) -> bool {
    &&& damage_fits(inputs)
    &&& reads_texture(inputs) ==> !tones_down(inputs) && inputs.damage != Some(None::<Vec<Rect>>)
}

/// Whether a capture can be handed to [`send_screencopy_result`].
pub fn can_be_served(inputs: &CaptureInputs) -> (yes: bool)
    ensures
        yes == is_servable(*inputs),
{
    let unchanged: bool = match &inputs.damage {
        Some(None) => true,
        _ => false,
    };
    if is_read_back(inputs) && (is_toned_down(inputs) || unchanged) {
        return false;
    }
    match inputs.cursor {
        Some(cursor) => {
            if !cursor.is_valid() {
                return false;
            }
        },
        None => {},
    }
    match (&inputs.damage, inputs.buffer_size) {
        (Some(Some(damage)), Some(size)) => all_adjustable(damage, inputs.transform, size),
        _ => true,
    }
}

fn all_adjustable(damage: &Vec<Rect>, transform: TransformDef, size: (i32, i32)) -> (yes: bool)
    ensures
        yes == (forall|i: int|
            0 <= i < damage@.len() ==> geometry::transform_fits(
                geometry::inverse(transform),
                #[trigger] damage@[i],
                turned_size(size, transform),
            ) && adjusted(damage@[i], transform, size).valid()),
{
    let inverted: TransformDef = geometry::invert(transform);
    let area: (i32, i32) = if geometry::is_sideways(transform) {
        (size.1, size.0)
    } else {
        size
    };
    let mut i: usize = 0;
    while i < damage.len()
        invariant
            i <= damage@.len(),
            inverted == geometry::inverse(transform),
            area == turned_size(size, transform),
            forall|k: int|
                0 <= k < i ==> geometry::transform_fits(inverted, #[trigger] damage@[k], area)
                    && adjusted(damage@[k], transform, size).valid(),
        decreases damage@.len() - i,
    {
        let rect: Rect = damage[i];
        if !geometry::can_transform(inverted, rect, area) {
            assert(!geometry::transform_fits(inverted, damage@[i as int], area));
            return false;
        }
        if !transform_rect_in(inverted, rect, area).is_valid() {
            assert(!adjusted(damage@[i as int], transform, size).valid());
            return false;
        }
        i += 1;
    }
    true
}

/// Decides how a capture is served from a frame.
pub fn send_screencopy_result(inputs: &CaptureInputs) -> (plan: Result<CapturePlan, CaptureError>)
    requires
        capture_error(*inputs) is None ==> is_servable(*inputs),
    ensures
        match capture_error(*inputs) {
            Some(error) => plan matches Err(found) && found == error,
            None => plan matches Ok(plan) && plan.target == capture_target(*inputs)
                && is_capture_draw(plan.draw, *inputs),
        },
{
    match refusal(inputs) {
        Some(error) => {
            return Err(error);
        },
        None => {},
    }
    let reads: bool = is_read_back(inputs);
    let target: CaptureTarget = match inputs.buffer {
        CaptureBuffer::Shm(Some(format)) => if reads {
            CaptureTarget::Texture
        } else {
            CaptureTarget::Renderbuffer(format)
        },
        _ => CaptureTarget::Dmabuf,
    };
    let draw: CaptureDraw = match (&inputs.damage, inputs.buffer_size) {
        (Some(Some(damage)), Some(size)) => {
            let parts: Vec<Rect> = adjust_all(damage, inputs.transform, size);
            proof {
                assert forall|i: int| 0 <= i < parts@.len() implies (
                #[trigger] parts@[i]).valid() by {
                    assert(geometry::transform_fits(
                        geometry::inverse(inputs.transform),
                        damage@[i],
                        turned_size(size, inputs.transform),
                    ));
                }
            }
            if inputs.texture.is_none() {
                CaptureDraw::FrameResult { damage: parts, hide_cursor: !inputs.draw_cursor }
            } else {
                let cursor: Option<Vec<Rect>> = match inputs.cursor {
                    Some(cursor) => if inputs.draw_cursor {
                        Some(damage_of_cursor(&parts, cursor))
                    } else {
                        None
                    },
                    None => None,
                };
                if is_toned_down(inputs) {
                    CaptureDraw::ToneDown {
                        ref_white_scale: inputs.capture_white,
                        damage: parts,
                        cursor,
                    }
                } else if reads {
                    CaptureDraw::UseTexture
                } else {
                    CaptureDraw::Blit { damage: parts, cursor }
                }
            }
        },
        _ => CaptureDraw::Nothing,
    };
    Ok(CapturePlan { target, draw })
}

/// When a client is told that its capture is done.
#[derive(Debug, Clone, Copy, PartialEq, Eq, Structural)]
pub enum Delivery {
    /// It was told already.
    Done,
    Now,
    /// Once the frame is on the screen.
    WithFrame,
}

/// When a client is told about a capture. `pending` says whether it is still to be
/// told once its buffer was submitted; an empty frame never comes to the screen.
pub fn delivery(pending: bool, frame_is_empty: bool) -> (delivery: Delivery)
    ensures
        delivery == (if !pending {
            Delivery::Done
        } else if frame_is_empty {
            Delivery::Now
        } else {
            Delivery::WithFrame
        }),
{
    if !pending {
        Delivery::Done
    } else if frame_is_empty {
        Delivery::Now
    } else {
        Delivery::WithFrame
    }
}

/// The cursor is redrawn only inside of itself, and only where the capture is
/// damaged.
pub proof fn lemma_cursor_damage_is_inside(damage: Seq<Rect>, cursor: Rect, n: nat, i: int)
    requires
        n <= damage.len(),
        geometry::all_valid(damage),
        cursor.valid(),
        0 <= i < cursor_damage(damage, cursor, n).len(),
    ensures
        ({
            let part = cursor_damage(damage, cursor, n)[i];
            0 <= part.x && 0 <= part.y && part.x + part.w <= cursor.w && part.y + part.h
                <= cursor.h
        }),
    decreases n,
{
    if n > 0 {
        let less = cursor_damage(damage, cursor, (n - 1) as nat);
        assert(damage[n - 1].valid());
        if i < less.len() {
            lemma_cursor_damage_is_inside(damage, cursor, (n - 1) as nat, i);
        }
    }
}

/// On an output that is not turned, damage is taken over as it is.
pub proof fn lemma_upright_damage_is_kept(damage: Seq<Rect>, size: (i32, i32))
    ensures
        adjusted_damage(damage, TransformDef::Normal, size) == damage,
{
    assert(adjusted_damage(damage, TransformDef::Normal, size) =~= damage);
}

/// A capture is refused exactly where the output has no mode to track damage by, the size
/// of the buffer is not known, the buffer cannot be read, or there is damage to draw on an
/// output without a mode. Only an unknown size is a failed import.
pub proof fn lemma_refused_captures(inputs: CaptureInputs)
    ensures
        capture_error(inputs) == Some(CaptureError::ImportFailed) <==> inputs.damage is Some
            && inputs.buffer_size is None,
        capture_error(inputs) == Some(CaptureError::NoMode) <==> inputs.damage is None || (
        inputs.buffer_size is Some && (inputs.buffer == CaptureBuffer::Shm(None) || (
        inputs.damage->0 is Some && !inputs.output_has_mode))),
        capture_error(inputs) is None ==> inputs.damage is Some && inputs.buffer_size is Some,
{
}

/// Where a capture goes: a dmabuf is drawn to as it is, and shared memory is filled from a
/// buffer in its format, unless the picture has that format already and no cursor is
/// missing in it.
pub proof fn lemma_targets_of_captures(inputs: CaptureInputs)
    ensures
        capture_target(inputs) is Dmabuf <==> inputs.buffer is Dmabuf,
        inputs.buffer matches CaptureBuffer::Shm(Some(format)) ==> {
            let complete = inputs.texture == Some(Some(format)) && (!inputs.draw_cursor
                || inputs.cursor is None);
            &&& complete ==> capture_target(inputs) is Texture
            &&& !complete ==> capture_target(inputs) == CaptureTarget::Renderbuffer(format)
        },
{
}

/// Nothing is drawn exactly where nothing changed. Without a picture the frame is copied;
/// with one, it is toned down where it is linear, scaled and meant to be, used as it is
/// where it is complete, and copied otherwise.
pub proof fn lemma_kinds_of_drawing(draw: CaptureDraw, inputs: CaptureInputs)
    requires
        inputs.damage is Some,
        is_capture_draw(draw, inputs),
    ensures
        draw is Nothing <==> inputs.damage->0 is None,
        draw is FrameResult <==> inputs.damage->0 is Some && inputs.texture is None,
        draw is ToneDown <==> inputs.damage->0 is Some && inputs.capture_white > 0
            && inputs.tone_down && inputs.texture == Some(Some(0x4834_4241u32)),
        draw is UseTexture ==> inputs.buffer is Shm && (!inputs.draw_cursor
            || inputs.cursor is None),
        draw matches CaptureDraw::FrameResult { damage, hide_cursor } ==> hide_cursor
            == !inputs.draw_cursor && damage@.len() == inputs.damage->0->0@.len(),
        draw matches CaptureDraw::ToneDown { ref_white_scale, damage, cursor } ==> ref_white_scale
            == inputs.capture_white && damage@.len() == inputs.damage->0->0@.len() && (
        cursor is Some <==> inputs.draw_cursor && inputs.cursor is Some),
        draw matches CaptureDraw::Blit { damage, cursor } ==> damage@.len()
            == inputs.damage->0->0@.len() && (cursor is Some <==> inputs.draw_cursor
            && inputs.cursor is Some),
{
}

/// The damage of a capture is that of the output, pixel by pixel, as the output is turned:
/// each damaged part is turned back into the buffer.
pub proof fn lemma_damage_is_turned_back(
    damage: Seq<Rect>,
    transform: TransformDef,
    size: (i32, i32),
    i: int,
    px: int,
    py: int,
)
    requires
        0 <= i < damage.len(),
        geometry::transform_fits(
            geometry::inverse(transform),
            damage[i],
            turned_size(size, transform),
        ),
    ensures
        adjusted_damage(damage, transform, size).len() == damage.len(),
        ({
            let (w, h) = (size.0 as int, size.1 as int);
            let to = match transform {
                TransformDef::Normal => (px, py),
                TransformDef::_90 => (py, h - 1 - px),
                TransformDef::_180 => (w - 1 - px, h - 1 - py),
                TransformDef::_270 => (w - 1 - py, px),
                TransformDef::Flipped => (w - 1 - px, py),
                TransformDef::Flipped90 => (py, px),
                TransformDef::Flipped180 => (px, h - 1 - py),
                TransformDef::Flipped270 => (w - 1 - py, h - 1 - px),
            };
            adjusted_damage(damage, transform, size)[i].covers(to.0, to.1) <==> damage[i].covers(
                px,
                py,
            )
        }),
{
}

/// The cursor is redrawn at exactly those of its pixels that are damaged.
pub proof fn lemma_cursor_damage_is_exact(
    damage: Seq<Rect>,
    cursor: Rect,
    n: nat,
    px: int,
    py: int,
)
    requires
        n <= damage.len(),
        geometry::all_valid(damage),
        cursor.valid(),
    ensures
        geometry::any_covers(cursor_damage(damage, cursor, n), px - cursor.x, py - cursor.y)
            <==> cursor.covers(px, py) && geometry::any_covers(damage.take(n as int), px, py),
    decreases n,
{
    if n > 0 {
        let less = cursor_damage(damage, cursor, (n - 1) as nat);
        let all = cursor_damage(damage, cursor, n);
        let (taken, more) = (damage.take(n - 1), damage.take(n as int));
        let (rx, ry) = (px - cursor.x, py - cursor.y);
        let last = damage[n - 1];
        lemma_cursor_damage_is_exact(damage, cursor, (n - 1) as nat, px, py);
        geometry::lemma_common_covers(cursor, last, px, py);
        if geometry::any_covers(less, rx, ry) {
            let k = choose|k: int| 0 <= k < less.len() && (#[trigger] less[k]).covers(rx, ry);
            assert(all[k] == less[k]);
        }
        if geometry::any_covers(taken, px, py) {
            let k = choose|k: int| 0 <= k < taken.len() && (#[trigger] taken[k]).covers(px, py);
            assert(more[k] == taken[k]);
        }
        assert(more[n - 1] == last);
        if cursor.common(last) is Some {
            assert(all[less.len() as int].covers(rx, ry) <==> cursor.common(last)->0.covers(px, py));
        }
        if geometry::any_covers(all, rx, ry) {
            let k = choose|k: int| 0 <= k < all.len() && (#[trigger] all[k]).covers(rx, ry);
            if k < less.len() {
                assert(less[k] == all[k]);
            }
        }
        if geometry::any_covers(more, px, py) {
            let k = choose|k: int| 0 <= k < more.len() && (#[trigger] more[k]).covers(px, py);
            if k < n - 1 {
                assert(taken[k] == more[k]);
            }
        }
    }
}

/// A capture can be served exactly if it does not ask to read back from the picture what is
/// toned down or unchanged, and its cursor and its damage, turned back into a buffer of a
/// known size, can be named.
pub proof fn lemma_servable_captures(inputs: CaptureInputs)
    ensures
        ({
            let complete = inputs.buffer is Shm && inputs.buffer->Shm_0 is Some && inputs.texture
                == Some(inputs.buffer->Shm_0) && (!inputs.draw_cursor || inputs.cursor is None);
            let linear = inputs.capture_white > 0 && inputs.tone_down && inputs.texture == Some(
                Some(0x4834_4241u32),
            );
            let unchanged = inputs.damage matches Some(None);
            let cursor_fits = inputs.cursor matches Some(cursor) ==> cursor.valid();
            is_servable(inputs) <==> {
                &&& cursor_fits
                &&& !(complete && (linear || unchanged))
                &&& inputs.damage matches Some(Some(damage)) ==> inputs.buffer_size matches Some(
                    size,
                ) ==> forall|i: int|
                    0 <= i < damage@.len() ==> geometry::transform_fits(
                        geometry::inverse(inputs.transform),
                        #[trigger] damage@[i],
                        turned_size(size, inputs.transform),
                    ) && adjusted(damage@[i], inputs.transform, size).valid()
            }
        }),
{
}

/// The damage that a capture is drawn in is that of the frame, turned back into the buffer,
/// and the cursor is drawn in its own part of it.
pub proof fn lemma_captures_draw_the_damage(draw: CaptureDraw, inputs: CaptureInputs)
    requires
        inputs.damage matches Some(Some(_)),
        is_capture_draw(draw, inputs),
    ensures
        ({
            let parts = adjusted_damage(
                inputs.damage->0->0@,
                inputs.transform,
                inputs.buffer_size->0,
            );
            &&& draw matches CaptureDraw::FrameResult { damage, .. } ==> damage@ == parts
            &&& draw matches CaptureDraw::ToneDown { damage, cursor, .. } ==> damage@ == parts && (
            cursor matches Some(rects) ==> rects@ == cursor_damage(
                parts,
                inputs.cursor->0,
                parts.len(),
            ))
            &&& draw matches CaptureDraw::Blit { damage, cursor } ==> damage@ == parts && (
            cursor matches Some(rects) ==> rects@ == cursor_damage(
                parts,
                inputs.cursor->0,
                parts.len(),
            ))
        }),
{
}

} // verus!
