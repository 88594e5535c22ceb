//! What the postprocessing shader is told.
use vstd::prelude::*;

use crate::geometry::Rect;
use crate::surface::{HdrTuning, ScreenFilter};

verus! {

/// HDR encoding in the shader, end to end.
pub const COLOR_MODE_HDR_SOFTWARE: u8 = 5;

/// A calibration pattern in place of the content.
pub const COLOR_MODE_HDR_TEST_PATTERN: u8 = 6;

/// The CRTC encodes, and the shader leaves the content as it is.
pub const COLOR_MODE_HDR_HARDWARE: u8 = 7;

/// The CRTC encodes, after the shader has applied saturation and gamma.
pub const COLOR_MODE_HDR_HARDWARE_TUNED: u8 = 8;

/// What the shader is told for an element.
#[derive(Debug, Clone, Copy, PartialEq, Eq, Structural)]
pub struct PostprocessUniforms {
    pub invert: bool,
    pub color_mode: u8,
    pub tuning: HdrTuning,
    /// Whether the element is in linear light already.
    pub path_b_active: bool,
}

/// What is told for the cursor, where it is drawn by itself, and for the content.
#[derive(Debug, Clone, Copy, PartialEq, Eq, Structural)]
pub struct PostprocessPlan {
    pub cursor: Option<PostprocessUniforms>,
    pub main: PostprocessUniforms,
}

/// Saturation and gamma are within one percent of neutral.
pub open spec fn is_neutral(tuning: HdrTuning) -> bool {
    99 <= tuning.saturation <= 101 && 99 <= tuning.midtone_gamma <= 101
}

/// The mode of the shader. Without HDR it is the number of the color filter, or
/// zero.
pub open spec fn color_mode(
    screen_filter: ScreenFilter,
    hdr_enabled: bool,
    tuning: HdrTuning,
    hardware_path: bool,
) -> u8 {
    if hdr_enabled {
        if tuning.test_pattern {
            COLOR_MODE_HDR_TEST_PATTERN
        } else if hardware_path {
            if is_neutral(tuning) {
                COLOR_MODE_HDR_HARDWARE
            } else {
                COLOR_MODE_HDR_HARDWARE_TUNED
            }
        } else {
            COLOR_MODE_HDR_SOFTWARE
        }
    } else {
        match screen_filter.color_filter {
            Some(number) => number,
            None => 0,
        }
    }
}

/// What the shader is told. The content is in linear light where scene-linear
/// compositing is on; the cursor never is. Both are told explicitly, because the
/// shader keeps what it was told last.
pub fn postprocess_elements(
    has_cursor: bool,
    screen_filter: ScreenFilter,
    hdr_enabled: bool,
    tuning: HdrTuning,
    hardware_path: bool,
    path_b: bool,
) -> (plan: PostprocessPlan)
    ensures
        ({
            let mode = color_mode(screen_filter, hdr_enabled, tuning, hardware_path);
            &&& plan.main == (PostprocessUniforms {
                invert: screen_filter.inverted,
                color_mode: mode,
                tuning,
                path_b_active: hdr_enabled && path_b,
            })
            &&& plan.cursor == if has_cursor {
                Some(
                    PostprocessUniforms {
                        invert: screen_filter.inverted,
                        color_mode: mode,
                        tuning,
                        path_b_active: false,
                    },
                )
            } else {
                None
            }
        }),
{
    let neutral: bool = 99 <= tuning.saturation && tuning.saturation <= 101 && 99
        <= tuning.midtone_gamma && tuning.midtone_gamma <= 101;
    let mode: u8 = if hdr_enabled {
        if tuning.test_pattern {
            COLOR_MODE_HDR_TEST_PATTERN
        } else if hardware_path {
            if neutral {
                COLOR_MODE_HDR_HARDWARE
            } else {
                COLOR_MODE_HDR_HARDWARE_TUNED
            }
        } else {
            COLOR_MODE_HDR_SOFTWARE
        }
    } else {
        match screen_filter.color_filter {
            Some(number) => number,
            None => 0,
        }
    };
    let main: PostprocessUniforms = PostprocessUniforms {
        invert: screen_filter.inverted,
        color_mode: mode,
        tuning,
        path_b_active: hdr_enabled && path_b,
    };
    let cursor: Option<PostprocessUniforms> = if has_cursor {
        Some(
            PostprocessUniforms {
                invert: screen_filter.inverted,
                color_mode: mode,
                tuning,
                path_b_active: false,
            },
        )
    } else {
        None
    };
    PostprocessPlan { cursor, main }
}

// ---------------------------------------------------------------------------
// The cursor by itself
// ---------------------------------------------------------------------------

/// The number of cursor elements at the front, from index `i` on.
pub open spec fn leading_cursors(is_cursor: Seq<bool>, i: int) -> int
    decreases is_cursor.len() - i,
{
    if i < 0 || i >= is_cursor.len() || !is_cursor[i] {
        0
    } else {
        1 + leading_cursors(is_cursor, i + 1)
    }
}

/// The number of cursor elements at the front of the elements.
pub fn cursor_element_count(is_cursor: &Vec<bool>) -> (count: usize)
    ensures
        count == leading_cursors(is_cursor@, 0),
        count <= is_cursor@.len(),
        forall|i: int| 0 <= i < count ==> is_cursor@[i],
        count < is_cursor@.len() ==> !is_cursor@[count as int],
{
    let mut i: usize = 0;
    while i < is_cursor.len() && is_cursor[i]
        invariant
            i <= is_cursor@.len(),
            leading_cursors(is_cursor@, 0) == i + leading_cursors(is_cursor@, i as int),
            forall|j: int| 0 <= j < i ==> is_cursor@[j],
        decreases is_cursor@.len() - i,
    {
        i += 1;
    }
    i
}

/// The edges of the smallest rectangle around the first `n`, which are at least
/// one: left, top, right and bottom.
pub open spec fn bounds(rects: Seq<Rect>, n: nat) -> (int, int, int, int)
    decreases n,
{
    let last = rects[n - 1];
    let (left, top, right, bottom) = (
        last.x as int,
        last.y as int,
        last.x + last.w,
        last.y + last.h,
    );
    if n <= 1 {
        (left, top, right, bottom)
    } else {
        let before = bounds(rects, (n - 1) as nat);
        (
            if before.0 <= left {
                before.0
            } else {
                left
            },
            if before.1 <= top {
                before.1
            } else {
                top
            },
            if before.2 >= right {
                before.2
            } else {
                right
            },
            if before.3 >= bottom {
                before.3
            } else {
                bottom
            },
        )
    }
}

/// The smallest rectangle around the given ones, where there are any. Its size can
/// be named.
pub fn bounding_geometry(rects: &Vec<Rect>) -> (geometry: Option<Rect>)
    requires
        forall|i: int| 0 <= i < rects@.len() ==> (#[trigger] rects@[i]).valid(),
        rects@.len() > 0 ==> {
            let edges = bounds(rects@, rects@.len());
            edges.2 - edges.0 <= i32::MAX && edges.3 - edges.1 <= i32::MAX
        },
    ensures
        match geometry {
            Some(rect) => {
                &&& rects@.len() > 0
                &&& bounds(rects@, rects@.len()) == (
                    rect.x as int,
                    rect.y as int,
                    rect.x + rect.w,
                    rect.y + rect.h,
                )
            },
            None => rects@.len() == 0,
        },
{
    if rects.len() == 0 {
        return None;
    }
    let first: Rect = rects[0];
    let mut left: i32 = first.x;
    let mut top: i32 = first.y;
    let mut right: i32 = first.x + first.w;
    let mut bottom: i32 = first.y + first.h;
    let mut i: usize = 1;
    while i < rects.len()
        invariant
            1 <= i <= rects@.len(),
            forall|j: int| 0 <= j < rects@.len() ==> (#[trigger] rects@[j]).valid(),
            bounds(rects@, i as nat) == (left as int, top as int, right as int, bottom as int),
            left <= right,
            top <= bottom,
        decreases rects@.len() - i,
    {
        let rect: Rect = rects[i];
        assert(rects@[i as int].valid());
        if rect.x < left {
            left = rect.x;
        }
        if rect.y < top {
            top = rect.y;
        }
        if rect.x + rect.w > right {
            right = rect.x + rect.w;
        }
        if rect.y + rect.h > bottom {
            bottom = rect.y + rect.h;
        }
        i += 1;
    }
    Some(Rect { x: left, y: top, w: right - left, h: bottom - top })
}

/// The smallest rectangle holds every pixel of every rectangle.
pub proof fn lemma_bounds_hold_all(rects: Seq<Rect>, n: nat, i: int)
    requires
        0 <= i < n <= rects.len(),
    ensures
        ({
            let edges = bounds(rects, n);
            &&& edges.0 <= rects[i].x
            &&& edges.1 <= rects[i].y
            &&& rects[i].x + rects[i].w <= edges.2
            &&& rects[i].y + rects[i].h <= edges.3
        }),
    decreases n,
{
    if i < n - 1 {
        lemma_bounds_hold_all(rects, (n - 1) as nat, i);
    }
}

/// Without HDR the shader applies the color filter, whatever the tuning and the path.
pub proof fn lemma_filters_show_without_hdr(
    screen_filter: ScreenFilter,
    tuning: HdrTuning,
    hardware_path: bool,
)
    ensures
        screen_filter.color_filter matches Some(number) ==> color_mode(
            screen_filter,
            false,
            tuning,
            hardware_path,
        ) == number,
        screen_filter.color_filter is None ==> color_mode(
            screen_filter,
            false,
            tuning,
            hardware_path,
        ) == 0,
{
}

/// With HDR the mode tells who encodes, and no filter changes it. A test pattern replaces
/// the content on either path; on the hardware path the shader steps in exactly where
/// saturation or gamma are more than one percent off.
pub proof fn lemma_modes_of_hdr(
    screen_filter: ScreenFilter,
    other_filter: ScreenFilter,
    tuning: HdrTuning,
    hardware_path: bool,
)
    ensures
        ({
            let mode = color_mode(screen_filter, true, tuning, hardware_path);
            &&& mode == color_mode(other_filter, true, tuning, hardware_path)
            &&& mode == 6 <==> tuning.test_pattern
            &&& mode == 5 <==> !tuning.test_pattern && !hardware_path
            &&& mode == 7 <==> !tuning.test_pattern && hardware_path && -1 <= tuning.saturation
                - 100 <= 1 && -1 <= tuning.midtone_gamma - 100 <= 1
            &&& mode == 8 <==> !tuning.test_pattern && hardware_path && (tuning.saturation < 99
                || tuning.saturation > 101 || tuning.midtone_gamma < 99 || tuning.midtone_gamma
                > 101)
        }),
{
}

/// The smallest rectangle is no larger than it has to be: each of its edges is the edge of
/// one of the rectangles.
pub proof fn lemma_bounds_are_tight(rects: Seq<Rect>, n: nat)
    requires
        0 < n <= rects.len(),
    ensures
        exists|i: int| 0 <= i < n && bounds(rects, n).0 == (#[trigger] rects[i]).x,
        exists|i: int| 0 <= i < n && bounds(rects, n).1 == (#[trigger] rects[i]).y,
        exists|i: int|
            0 <= i < n && bounds(rects, n).2 == (#[trigger] rects[i]).x + rects[i].w,
        exists|i: int|
            0 <= i < n && bounds(rects, n).3 == (#[trigger] rects[i]).y + rects[i].h,
    decreases n,
{
    let last = rects[n - 1];
    assert(last == rects[n - 1]);
    if n > 1 {
        let less = (n - 1) as nat;
        lemma_bounds_are_tight(rects, less);
        let a = choose|i: int| 0 <= i < less && bounds(rects, less).0 == (#[trigger] rects[i]).x;
        let b = choose|i: int| 0 <= i < less && bounds(rects, less).1 == (#[trigger] rects[i]).y;
        let c = choose|i: int|
            0 <= i < less && bounds(rects, less).2 == (#[trigger] rects[i]).x + rects[i].w;
        let d = choose|i: int|
            0 <= i < less && bounds(rects, less).3 == (#[trigger] rects[i]).y + rects[i].h;
        assert(0 <= a < n && 0 <= b < n && 0 <= c < n && 0 <= d < n);
    }
}

/// The cursors at the front are all cursors, and what follows them is not one.
pub proof fn lemma_leading_cursors_end_at_the_content(is_cursor: Seq<bool>, i: int)
    requires
        0 <= i <= is_cursor.len(),
    ensures
        ({
            let end = i + leading_cursors(is_cursor, i);
            &&& i <= end <= is_cursor.len()
            &&& forall|j: int| i <= j < end ==> #[trigger] is_cursor[j]
            &&& end < is_cursor.len() ==> !is_cursor[end]
        }),
    decreases is_cursor.len() - i,
{
    if i < is_cursor.len() {
        lemma_leading_cursors_end_at_the_content(is_cursor, i + 1);
    }
}

} // verus!
