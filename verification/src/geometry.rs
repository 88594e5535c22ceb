//! Rectangles on the pixel grid.
//!
//! The library does not take these from smithay, which brings in the native libraries
//! xkbcommon and gbm: without them it links anywhere.
use vstd::prelude::*;

use crate::output_config::TransformDef;

verus! {

/// A rectangle of pixels, given by its top-left corner and its size.
#[derive(Debug, Clone, Copy, PartialEq, Eq, Structural)]
pub struct Rect {
    pub x: i32,
    pub y: i32,
    pub w: i32,
    pub h: i32,
}

impl Rect {
    /// The size is not negative, and the far edges can be named.
    pub open spec fn valid(self) -> bool {
        &&& 0 <= self.w
        &&& 0 <= self.h
        &&& self.x + self.w <= i32::MAX
        &&& self.y + self.h <= i32::MAX
    }

    /// Whether the size is not negative, and the far edges can be named.
    pub fn is_valid(&self) -> (valid: bool)
        ensures
            valid == self.valid(),
    {
        0 <= self.w && 0 <= self.h && self.x as i64 + self.w as i64 <= i32::MAX as i64
            && self.y as i64 + self.h as i64 <= i32::MAX as i64
    }

    pub open spec fn is_empty(self) -> bool {
        self.w == 0 || self.h == 0
    }

    /// The rectangle holds the pixel at `(px, py)`.
    pub open spec fn covers(self, px: int, py: int) -> bool {
        self.x <= px < self.x + self.w && self.y <= py < self.y + self.h
    }

    pub open spec fn overlaps(self, other: Rect) -> bool {
        &&& self.x < other.x + other.w
        &&& other.x < self.x + self.w
        &&& self.y < other.y + other.h
        &&& other.y < self.y + self.h
    }

    pub open spec fn contains_rect(self, other: Rect) -> bool {
        &&& other.x >= self.x
        &&& other.y >= self.y
        &&& other.x + other.w <= self.x + self.w
        &&& other.y + other.h <= self.y + self.h
    }

    /// What two rectangles have in common.
    pub open spec fn common(self, other: Rect) -> Option<Rect> {
        if self.overlaps(other) {
            let left = if self.x >= other.x {
                self.x
            } else {
                other.x
            };
            let top = if self.y >= other.y {
                self.y
            } else {
                other.y
            };
            let right = if self.x + self.w <= other.x + other.w {
                self.x + self.w
            } else {
                other.x + other.w
            };
            let bottom = if self.y + self.h <= other.y + other.h {
                self.y + self.h
            } else {
                other.y + other.h
            };
            Some(Rect { x: left, y: top, w: (right - left) as i32, h: (bottom - top) as i32 })
        } else {
            None
        }
    }

    /// What two rectangles have in common, if they overlap.
    pub fn intersection(self, other: Rect) -> (rect: Option<Rect>)
        requires
            self.valid(),
            other.valid(),
        ensures
            rect == self.common(other),
            rect matches Some(rect) ==> rect.valid(),
    {
        let right: i32 = self.x + self.w;
        let bottom: i32 = self.y + self.h;
        let other_right: i32 = other.x + other.w;
        let other_bottom: i32 = other.y + other.h;
        if self.x < other_right && other.x < right && self.y < other_bottom && other.y < bottom {
            let x: i32 = if self.x >= other.x {
                self.x
            } else {
                other.x
            };
            let y: i32 = if self.y >= other.y {
                self.y
            } else {
                other.y
            };
            let end_x: i32 = if right <= other_right {
                right
            } else {
                other_right
            };
            let end_y: i32 = if bottom <= other_bottom {
                bottom
            } else {
                other_bottom
            };
            Some(Rect { x, y, w: end_x - x, h: end_y - y })
        } else {
            None
        }
    }
}

/// A rectangle in units of `1 / 256` pixel.
#[derive(Debug, Clone, Copy, PartialEq, Eq, Structural)]
pub struct FineRect {
    pub x: i64,
    pub y: i64,
    pub w: i64,
    pub h: i64,
}

impl FineRect {
    pub open spec fn contains_rect(self, other: FineRect) -> bool {
        &&& other.x >= self.x
        &&& other.y >= self.y
        &&& other.x + other.w <= self.x + self.w
        &&& other.y + other.h <= self.y + self.h
    }
}

/// The coordinates can be added up, and multiplied with those of a screen.
pub open spec fn fine_in_range(rect: FineRect) -> bool {
    &&& -0x1_0000_0000_0000 <= rect.x <= 0x1_0000_0000_0000
    &&& -0x1_0000_0000_0000 <= rect.y <= 0x1_0000_0000_0000
    &&& -0x1_0000_0000_0000 <= rect.w <= 0x1_0000_0000_0000
    &&& -0x1_0000_0000_0000 <= rect.h <= 0x1_0000_0000_0000
}

/// Two rectangles have in common the pixels that both hold.
pub proof fn lemma_common_covers(a: Rect, b: Rect, px: int, py: int)
    requires
        a.valid(),
        b.valid(),
    ensures
        (a.common(b) matches Some(c) && c.covers(px, py)) <==> a.covers(px, py) && b.covers(px, py),
{
}

// ---------------------------------------------------------------------------
// Subtraction
// ---------------------------------------------------------------------------

pub open spec fn all_valid(rects: Seq<Rect>) -> bool {
    forall|i: int| 0 <= i < rects.len() ==> (#[trigger] rects[i]).valid()
}

/// Some rectangle of the list holds the pixel.
pub open spec fn any_covers(rects: Seq<Rect>, px: int, py: int) -> bool {
    exists|i: int| 0 <= i < rects.len() && (#[trigger] rects[i]).covers(px, py)
}

pub open spec fn unless_empty(rect: Rect) -> Seq<Rect> {
    if rect.is_empty() {
        Seq::empty()
    } else {
        seq![rect]
    }
}

/// What is left of a rectangle that overlaps another: the strips above, left,
/// right and below of what they have in common.
pub open spec fn pieces(item: Rect, other: Rect) -> Seq<Rect> {
    if other.contains_rect(item) {
        Seq::empty()
    } else {
        let cut = item.common(other)->0;
        let right = cut.x + cut.w;
        let bottom = cut.y + cut.h;
        unless_empty(Rect { x: item.x, y: item.y, w: item.w, h: (cut.y - item.y) as i32 })
            + unless_empty(Rect { x: item.x, y: cut.y, w: (cut.x - item.x) as i32, h: cut.h })
            + unless_empty(
            Rect { x: right as i32, y: cut.y, w: (item.x + item.w - right) as i32, h: cut.h },
        ) + unless_empty(
            Rect { x: item.x, y: bottom as i32, w: item.w, h: (item.y + item.h - bottom) as i32 },
        )
    }
}

/// Those of the first `n` rectangles that do not overlap the other one.
pub open spec fn untouched(rects: Seq<Rect>, other: Rect, n: nat) -> Seq<Rect>
    decreases n,
{
    if n == 0 {
        Seq::empty()
    } else if rects[n - 1].overlaps(other) {
        untouched(rects, other, (n - 1) as nat)
    } else {
        untouched(rects, other, (n - 1) as nat).push(rects[n - 1])
    }
}

/// What is left of those of the first `n` rectangles that overlap the other one.
pub open spec fn split(rects: Seq<Rect>, other: Rect, n: nat) -> Seq<Rect>
    decreases n,
{
    if n == 0 {
        Seq::empty()
    } else if rects[n - 1].overlaps(other) {
        split(rects, other, (n - 1) as nat) + pieces(rects[n - 1], other)
    } else {
        split(rects, other, (n - 1) as nat)
    }
}

/// The rectangles without what the other one holds.
pub open spec fn subtracted(rects: Seq<Rect>, other: Rect) -> Seq<Rect> {
    untouched(rects, other, rects.len()) + split(rects, other, rects.len())
}

/// The rectangles without what the first `n` others hold.
pub open spec fn subtracted_all(rects: Seq<Rect>, others: Seq<Rect>, n: nat) -> Seq<Rect>
    decreases n,
{
    if n == 0 {
        rects
    } else {
        subtracted(subtracted_all(rects, others, (n - 1) as nat), others[n - 1])
    }
}

fn push_unless_empty(rects: &mut Vec<Rect>, rect: Rect)
    ensures
        final(rects)@ == old(rects)@ + unless_empty(rect),
{
    if rect.w != 0 && rect.h != 0 {
        rects.push(rect);
    }
    assert(rects@ =~= old(rects)@ + unless_empty(rect));
}

fn push_pieces(rects: &mut Vec<Rect>, item: Rect, other: Rect)
    requires
        item.valid(),
        other.valid(),
        item.overlaps(other),
    ensures
        final(rects)@ == old(rects)@ + pieces(item, other),
{
    let item_right: i32 = item.x + item.w;
    let item_bottom: i32 = item.y + item.h;
    if item.x >= other.x && item.y >= other.y && item_right <= other.x + other.w && item_bottom
        <= other.y + other.h {
        assert(rects@ =~= old(rects)@ + pieces(item, other));
        return;
    }
    let cut: Rect = match item.intersection(other) {
        Some(cut) => cut,
        None => item,
    };
    let right: i32 = cut.x + cut.w;
    let bottom: i32 = cut.y + cut.h;
    push_unless_empty(rects, Rect { x: item.x, y: item.y, w: item.w, h: cut.y - item.y });
    push_unless_empty(rects, Rect { x: item.x, y: cut.y, w: cut.x - item.x, h: cut.h });
    push_unless_empty(rects, Rect { x: right, y: cut.y, w: item_right - right, h: cut.h });
    push_unless_empty(rects, Rect { x: item.x, y: bottom, w: item.w, h: item_bottom - bottom });
    assert(rects@ =~= old(rects)@ + pieces(item, other));
}

proof fn lemma_pieces(item: Rect, other: Rect)
    requires
        item.valid(),
        other.valid(),
        item.overlaps(other),
    ensures
        all_valid(pieces(item, other)),
        forall|i: int| 0 <= i < pieces(item, other).len() ==> !(#[trigger] pieces(item, other)[i]).is_empty(),
        forall|px: int, py: int|
            any_covers(pieces(item, other), px, py) <==> item.covers(px, py) && !other.covers(px, py),
{
    let all = pieces(item, other);
    if !other.contains_rect(item) {
        let cut = item.common(other)->0;
        let right = (cut.x + cut.w) as i32;
        let bottom = (cut.y + cut.h) as i32;
        let a = Rect { x: item.x, y: item.y, w: item.w, h: (cut.y - item.y) as i32 };
        let b = Rect { x: item.x, y: cut.y, w: (cut.x - item.x) as i32, h: cut.h };
        let c = Rect { x: right, y: cut.y, w: (item.x + item.w - right) as i32, h: cut.h };
        let d = Rect { x: item.x, y: bottom, w: item.w, h: (item.y + item.h - bottom) as i32 };
        let (ea, eb, ec, ed) = (unless_empty(a), unless_empty(b), unless_empty(c), unless_empty(d));
        assert(all == ea + eb + ec + ed);
        assert forall|i: int| 0 <= i < all.len() implies (#[trigger] all[i] == a || all[i] == b
            || all[i] == c || all[i] == d) && !all[i].is_empty() by {
            if i < ea.len() {
                assert(all[i] == ea[i]);
            } else if i < ea.len() + eb.len() {
                assert(all[i] == eb[i - ea.len()]);
            } else if i < ea.len() + eb.len() + ec.len() {
                assert(all[i] == ec[i - ea.len() - eb.len()]);
            } else {
                assert(all[i] == ed[i - ea.len() - eb.len() - ec.len()]);
            }
        }
        assert forall|px: int, py: int| any_covers(all, px, py) <==> item.covers(px, py)
            && !other.covers(px, py) by {
            if item.covers(px, py) && !other.covers(px, py) {
                assert(a.covers(px, py) || b.covers(px, py) || c.covers(px, py) || d.covers(px, py));
                if a.covers(px, py) {
                    assert(all[0] == ea[0]);
                } else if b.covers(px, py) {
                    assert(all[ea.len() as int] == eb[0]);
                } else if c.covers(px, py) {
                    assert(all[(ea.len() + eb.len()) as int] == ec[0]);
                } else {
                    assert(all[(ea.len() + eb.len() + ec.len()) as int] == ed[0]);
                }
            }
        }
    } else {
        assert forall|px: int, py: int| any_covers(all, px, py) <==> item.covers(px, py)
            && !other.covers(px, py) by {}
    }
}

proof fn lemma_any_covers_concat(a: Seq<Rect>, b: Seq<Rect>, px: int, py: int)
    ensures
        any_covers(a + b, px, py) <==> any_covers(a, px, py) || any_covers(b, px, py),
{
    if any_covers(a, px, py) {
        let i = choose|i: int| 0 <= i < a.len() && (#[trigger] a[i]).covers(px, py);
        assert((a + b)[i] == a[i]);
    }
    if any_covers(b, px, py) {
        let i = choose|i: int| 0 <= i < b.len() && (#[trigger] b[i]).covers(px, py);
        assert((a + b)[a.len() + i] == b[i]);
    }
    if any_covers(a + b, px, py) {
        let i = choose|i: int| 0 <= i < (a + b).len() && (#[trigger] (a + b)[i]).covers(px, py);
        if i < a.len() {
            assert((a + b)[i] == a[i]);
        } else {
            assert((a + b)[i] == b[i - a.len()]);
        }
    }
}

pub open spec fn none_empty(rects: Seq<Rect>) -> bool {
    forall|i: int| 0 <= i < rects.len() ==> !(#[trigger] rects[i]).is_empty()
}

proof fn lemma_subtracted_prefix(rects: Seq<Rect>, other: Rect, n: nat)
    requires
        n <= rects.len(),
        all_valid(rects),
        other.valid(),
    ensures
        all_valid(untouched(rects, other, n)),
        all_valid(split(rects, other, n)),
        none_empty(split(rects, other, n)),
        none_empty(rects) ==> none_empty(untouched(rects, other, n)),
        forall|px: int, py: int|
            #![trigger any_covers(untouched(rects, other, n), px, py)]
            any_covers(untouched(rects, other, n), px, py) || any_covers(
                split(rects, other, n),
                px,
                py,
            ) <==> any_covers(rects.take(n as int), px, py) && !other.covers(px, py),
    decreases n,
{
    if n > 0 {
        let less = (n - 1) as nat;
        let item = rects[n - 1];
        lemma_subtracted_prefix(rects, other, less);
        let (u, s) = (untouched(rects, other, less), split(rects, other, less));
        let taken = rects.take(less as int);
        assert(rects.take(n as int) =~= taken + seq![item]);
        if item.overlaps(other) {
            lemma_pieces(item, other);
        }
        assert forall|px: int, py: int|
            #![trigger any_covers(untouched(rects, other, n), px, py)]
            any_covers(untouched(rects, other, n), px, py) || any_covers(
                split(rects, other, n),
                px,
                py,
            ) <==> any_covers(rects.take(n as int), px, py) && !other.covers(px, py) by {
            lemma_any_covers_concat(taken, seq![item], px, py);
            assert(any_covers(u, px, py) || any_covers(s, px, py) <==> any_covers(taken, px, py)
                && !other.covers(px, py));
            assert(any_covers(seq![item], px, py) <==> item.covers(px, py)) by {
                assert(seq![item][0] == item);
            }
            if item.overlaps(other) {
                lemma_any_covers_concat(s, pieces(item, other), px, py);
            } else {
                assert(u.push(item) =~= u + seq![item]);
                lemma_any_covers_concat(u, seq![item], px, py);
            }
        }
    }
}

proof fn lemma_subtracted(rects: Seq<Rect>, other: Rect)
    requires
        all_valid(rects),
        other.valid(),
    ensures
        all_valid(subtracted(rects, other)),
        none_empty(rects) ==> none_empty(subtracted(rects, other)),
        forall|px: int, py: int|
            #![trigger any_covers(subtracted(rects, other), px, py)]
            any_covers(subtracted(rects, other), px, py) <==> any_covers(rects, px, py)
                && !other.covers(px, py),
{
    let n = rects.len();
    lemma_subtracted_prefix(rects, other, n);
    assert(rects.take(n as int) =~= rects);
    let (u, s) = (untouched(rects, other, n), split(rects, other, n));
    assert forall|px: int, py: int|
        #![trigger any_covers(subtracted(rects, other), px, py)]
        any_covers(subtracted(rects, other), px, py) <==> any_covers(rects, px, py)
            && !other.covers(px, py) by {
        lemma_any_covers_concat(u, s, px, py);
        assert(any_covers(u, px, py) || any_covers(s, px, py) <==> any_covers(
            rects.take(n as int),
            px,
            py,
        ) && !other.covers(px, py));
    }
}

/// What is left holds exactly the pixels that the rectangles held and no other
/// one holds; and an empty rectangle is left only where one was there before.
pub proof fn lemma_subtracted_all(rects: Seq<Rect>, others: Seq<Rect>, n: nat)
    requires
        n <= others.len(),
        all_valid(rects),
        all_valid(others),
    ensures
        all_valid(subtracted_all(rects, others, n)),
        none_empty(rects) ==> none_empty(subtracted_all(rects, others, n)),
        forall|px: int, py: int|
            #![trigger any_covers(subtracted_all(rects, others, n), px, py)]
            any_covers(subtracted_all(rects, others, n), px, py) <==> any_covers(rects, px, py)
                && !any_covers(others.take(n as int), px, py),
    decreases n,
{
    if n == 0 {
        assert forall|px: int, py: int| !any_covers(#[trigger] others.take(0), px, py) by {}
    } else {
        let less = (n - 1) as nat;
        lemma_subtracted_all(rects, others, less);
        let before = subtracted_all(rects, others, less);
        let other = others[n - 1];
        lemma_subtracted(before, other);
        assert(others.take(n as int) =~= others.take(less as int) + seq![other]);
        assert forall|px: int, py: int|
            #![trigger any_covers(subtracted_all(rects, others, n), px, py)]
            any_covers(subtracted_all(rects, others, n), px, py) <==> any_covers(rects, px, py)
                && !any_covers(others.take(n as int), px, py) by {
            lemma_any_covers_concat(others.take(less as int), seq![other], px, py);
            assert(any_covers(before, px, py) <==> any_covers(rects, px, py) && !any_covers(
                others.take(less as int),
                px,
                py,
            ));
            assert(any_covers(seq![other], px, py) <==> other.covers(px, py)) by {
                assert(seq![other][0] == other);
            }
            assert(any_covers(subtracted(before, other), px, py) <==> any_covers(before, px, py)
                && !other.covers(px, py));
        }
    }
}

/// The rectangles without what the others hold.
pub fn subtract_rects_many(rects: Vec<Rect>, others: &Vec<Rect>) -> (remaining: Vec<Rect>)
    requires
        all_valid(rects@),
        all_valid(others@),
    ensures
        remaining@ == subtracted_all(rects@, others@, others@.len()),
        all_valid(remaining@),
{
    let ghost start = rects@;
    let mut remaining: Vec<Rect> = rects;
    let mut k: usize = 0;
    while k < others.len()
        invariant
            k <= others@.len(),
            all_valid(start),
            all_valid(others@),
            remaining@ == subtracted_all(start, others@, k as nat),
            all_valid(remaining@),
        decreases others@.len() - k,
    {
        let other: Rect = others[k];
        let mut kept: Vec<Rect> = Vec::new();
        let mut parts: Vec<Rect> = Vec::new();
        let mut i: usize = 0;
        while i < remaining.len()
            invariant
                i <= remaining@.len(),
                all_valid(remaining@),
                other.valid(),
                kept@ == untouched(remaining@, other, i as nat),
                parts@ == split(remaining@, other, i as nat),
            decreases remaining@.len() - i,
        {
            let item: Rect = remaining[i];
            assert(item.valid());
            let overlap: bool = item.x < other.x + other.w && other.x < item.x + item.w && item.y
                < other.y + other.h && other.y < item.y + item.h;
            if overlap {
                push_pieces(&mut parts, item, other);
            } else {
                kept.push(item);
            }
            i += 1;
        }
        proof {
            lemma_subtracted(remaining@, other);
        }
        kept.append(&mut parts);
        remaining = kept;
        k += 1;
    }
    remaining
}

// ---------------------------------------------------------------------------
// Transforms
// ---------------------------------------------------------------------------

/// The transform exchanges width and height.
pub open spec fn swaps_axes(transform: TransformDef) -> bool {
    match transform {
        TransformDef::_90 | TransformDef::_270 | TransformDef::Flipped90 | TransformDef::Flipped270 => true,
        _ => false,
    }
}

pub fn is_sideways(transform: TransformDef) -> (yes: bool)
    ensures
        yes == swaps_axes(transform),
{
    match transform {
        TransformDef::_90 | TransformDef::_270 | TransformDef::Flipped90 | TransformDef::Flipped270 => true,
        _ => false,
    }
}

/// The opposite transform.
pub open spec fn inverse(transform: TransformDef) -> TransformDef {
    match transform {
        TransformDef::_90 => TransformDef::_270,
        TransformDef::_270 => TransformDef::_90,
        TransformDef::Flipped90 => TransformDef::Flipped270,
        TransformDef::Flipped270 => TransformDef::Flipped90,
        other => other,
    }
}

pub fn invert(transform: TransformDef) -> (inverted: TransformDef)
    ensures
        inverted == inverse(transform),
{
    match transform {
        TransformDef::_90 => TransformDef::_270,
        TransformDef::_270 => TransformDef::_90,
        TransformDef::Flipped90 => TransformDef::Flipped270,
        TransformDef::Flipped270 => TransformDef::Flipped90,
        other => other,
    }
}

/// The corner of a transformed rectangle, in an area of the given size.
pub open spec fn transformed_corner(transform: TransformDef, rect: Rect, area: (i32, i32)) -> (
    int,
    int,
) {
    let from_right = area.0 - rect.x - rect.w;
    let from_bottom = area.1 - rect.y - rect.h;
    match transform {
        TransformDef::Normal => (rect.x as int, rect.y as int),
        TransformDef::_90 => (from_bottom, rect.x as int),
        TransformDef::_180 => (from_right, from_bottom),
        TransformDef::_270 => (rect.y as int, from_right),
        TransformDef::Flipped => (from_right, rect.y as int),
        TransformDef::Flipped90 => (from_bottom, from_right),
        TransformDef::Flipped180 => (rect.x as int, from_bottom),
        TransformDef::Flipped270 => (rect.y as int, rect.x as int),
    }
}

/// A rectangle, transformed together with the area that it lies in.
pub open spec fn transformed(transform: TransformDef, rect: Rect, area: (i32, i32)) -> Rect {
    let (x, y) = transformed_corner(transform, rect, area);
    let (w, h) = if swaps_axes(transform) {
        (rect.h, rect.w)
    } else {
        (rect.w, rect.h)
    };
    Rect { x: x as i32, y: y as i32, w, h }
}

/// The transformed rectangle can be named.
pub open spec fn transform_fits(transform: TransformDef, rect: Rect, area: (i32, i32)) -> bool {
    let (x, y) = transformed_corner(transform, rect, area);
    i32::MIN <= x <= i32::MAX && i32::MIN <= y <= i32::MAX
}

fn corner_in(transform: TransformDef, rect: Rect, area: (i32, i32)) -> (corner: (i64, i64))
    ensures
        corner.0 == transformed_corner(transform, rect, area).0,
        corner.1 == transformed_corner(transform, rect, area).1,
{
    let from_right: i64 = area.0 as i64 - rect.x as i64 - rect.w as i64;
    let from_bottom: i64 = area.1 as i64 - rect.y as i64 - rect.h as i64;
    match transform {
        TransformDef::Normal => (rect.x as i64, rect.y as i64),
        TransformDef::_90 => (from_bottom, rect.x as i64),
        TransformDef::_180 => (from_right, from_bottom),
        TransformDef::_270 => (rect.y as i64, from_right),
        TransformDef::Flipped => (from_right, rect.y as i64),
        TransformDef::Flipped90 => (from_bottom, from_right),
        TransformDef::Flipped180 => (rect.x as i64, from_bottom),
        TransformDef::Flipped270 => (rect.y as i64, rect.x as i64),
    }
}

/// Whether the transformed rectangle can be named.
pub fn can_transform(transform: TransformDef, rect: Rect, area: (i32, i32)) -> (fits: bool)
    ensures
        fits == transform_fits(transform, rect, area),
{
    let (x, y): (i64, i64) = corner_in(transform, rect, area);
    i32::MIN as i64 <= x && x <= i32::MAX as i64 && i32::MIN as i64 <= y && y <= i32::MAX as i64
}

/// A rectangle, transformed together with the area that it lies in.
pub fn transform_rect_in(transform: TransformDef, rect: Rect, area: (i32, i32)) -> (result: Rect)
    requires
        transform_fits(transform, rect, area),
    ensures
        result == transformed(transform, rect, area),
{
    let (x, y): (i64, i64) = corner_in(transform, rect, area);
    if is_sideways(transform) {
        Rect { x: x as i32, y: y as i32, w: rect.h, h: rect.w }
    } else {
        Rect { x: x as i32, y: y as i32, w: rect.w, h: rect.h }
    }
}

/// The opposite transform undoes a transform. (Not so for the two that flip and
/// turn sideways, each of which undoes itself.)
pub proof fn lemma_inverse_undoes(transform: TransformDef, rect: Rect, area: (i32, i32))
    requires
        transform_fits(transform, rect, area),
    ensures
        ({
            let turned = if swaps_axes(transform) {
                (area.1, area.0)
            } else {
                area
            };
            let back = if transform == TransformDef::Flipped90 || transform
                == TransformDef::Flipped270 {
                transform
            } else {
                inverse(transform)
            };
            transformed(back, transformed(transform, rect, area), turned) == rect
        }),
{
}

/// Where a pixel goes when its area of `w` by `h` pixels is transformed: quarter turns
/// bring the bottom row to the left, and flips exchange left and right first.
pub open spec fn moved_pixel(transform: TransformDef, w: int, h: int, px: int, py: int) -> (
    int,
    int,
) {
    match transform {
        TransformDef::Normal => (px, py),
        TransformDef::_90 => (h - 1 - py, px),
        TransformDef::_180 => (w - 1 - px, h - 1 - py),
        TransformDef::_270 => (py, w - 1 - px),
        TransformDef::Flipped => (w - 1 - px, py),
        TransformDef::Flipped90 => (h - 1 - py, w - 1 - px),
        TransformDef::Flipped180 => (px, h - 1 - py),
        TransformDef::Flipped270 => (py, px),
    }
}

/// A transformed rectangle holds exactly the pixels that the rectangle held, moved with
/// the area.
pub proof fn lemma_transformed_covers(
    transform: TransformDef,
    rect: Rect,
    area: (i32, i32),
    px: int,
    py: int,
)
    requires
        transform_fits(transform, rect, area),
    ensures
        ({
            let to = moved_pixel(transform, area.0 as int, area.1 as int, px, py);
            transformed(transform, rect, area).covers(to.0, to.1) <==> rect.covers(px, py)
        }),
{
}

/// Quarter turns add up, a flip undoes itself, and a flipped turn is the flip followed by
/// the turn. A pixel of the area stays in the area, which lies on its side exactly
/// after an odd number of quarter turns.
pub proof fn lemma_transforms_compose(
    transform: TransformDef,
    w: int,
    h: int,
    px: int,
    py: int,
)
    requires
        0 <= px < w,
        0 <= py < h,
    ensures
        ({
            let turn = moved_pixel(TransformDef::_90, w, h, px, py);
            let half = moved_pixel(TransformDef::_180, w, h, px, py);
            let flip = moved_pixel(TransformDef::Flipped, w, h, px, py);
            &&& half == moved_pixel(TransformDef::_90, h, w, turn.0, turn.1)
            &&& moved_pixel(TransformDef::_270, w, h, px, py) == moved_pixel(
                TransformDef::_90,
                w,
                h,
                half.0,
                half.1,
            )
            &&& (px, py) == moved_pixel(TransformDef::_180, w, h, half.0, half.1)
            &&& (px, py) == moved_pixel(TransformDef::Flipped, w, h, flip.0, flip.1)
            &&& moved_pixel(TransformDef::Flipped90, w, h, px, py) == moved_pixel(
                TransformDef::_90,
                w,
                h,
                flip.0,
                flip.1,
            )
            &&& moved_pixel(TransformDef::Flipped180, w, h, px, py) == moved_pixel(
                TransformDef::_180,
                w,
                h,
                flip.0,
                flip.1,
            )
            &&& moved_pixel(TransformDef::Flipped270, w, h, px, py) == moved_pixel(
                TransformDef::_270,
                w,
                h,
                flip.0,
                flip.1,
            )
        }),
        ({
            let to = moved_pixel(transform, w, h, px, py);
            if swaps_axes(transform) {
                0 <= to.0 < h && 0 <= to.1 < w
            } else {
                0 <= to.0 < w && 0 <= to.1 < h
            }
        }),
        swaps_axes(transform) <==> transform == TransformDef::_90 || transform
            == TransformDef::_270 || transform == TransformDef::Flipped90 || transform
            == TransformDef::Flipped270,
{
}

/// The opposite transform turns the other way: a quarter turn one way is undone by the
/// other, and every other transform that keeps the axes undoes itself.
pub proof fn lemma_opposite_turns(transform: TransformDef)
    ensures
        inverse(inverse(transform)) == transform,
        inverse(transform) != transform <==> swaps_axes(transform),
        swaps_axes(inverse(transform)) == swaps_axes(transform),
        transform == TransformDef::_90 ==> inverse(transform) == TransformDef::_270,
        transform == TransformDef::Flipped90 ==> inverse(transform) == TransformDef::Flipped270,
{
}

/// How many rectangles of the list hold the pixel.
pub open spec fn cover_count(rects: Seq<Rect>, px: int, py: int) -> nat
    decreases rects.len(),
{
    if rects.len() == 0 {
        0
    } else {
        cover_count(rects.drop_last(), px, py) + if rects.last().covers(px, py) {
            1nat
        } else {
            0nat
        }
    }
}

proof fn lemma_cover_count_concat(a: Seq<Rect>, b: Seq<Rect>, px: int, py: int)
    ensures
        cover_count(a + b, px, py) == cover_count(a, px, py) + cover_count(b, px, py),
    decreases b.len(),
{
    if b.len() == 0 {
        assert(a + b =~= a);
    } else {
        assert((a + b).drop_last() =~= a + b.drop_last());
        lemma_cover_count_concat(a, b.drop_last(), px, py);
    }
}

proof fn lemma_cover_count_one(rect: Rect, px: int, py: int)
    requires
        rect.valid(),
    ensures
        cover_count(unless_empty(rect), px, py) == if rect.covers(px, py) {
            1nat
        } else {
            0nat
        },
{
    if !rect.is_empty() {
        assert(seq![rect].drop_last() =~= Seq::empty());
        assert(cover_count(seq![rect].drop_last(), px, py) == 0);
    }
}

proof fn lemma_pieces_count(item: Rect, other: Rect, px: int, py: int)
    requires
        item.valid(),
        other.valid(),
        item.overlaps(other),
    ensures
        cover_count(pieces(item, other), px, py) == if item.covers(px, py) && !other.covers(px, py) {
            1nat
        } else {
            0nat
        },
{
    if !other.contains_rect(item) {
        let cut = item.common(other)->0;
        let right = (cut.x + cut.w) as i32;
        let bottom = (cut.y + cut.h) as i32;
        let a = Rect { x: item.x, y: item.y, w: item.w, h: (cut.y - item.y) as i32 };
        let b = Rect { x: item.x, y: cut.y, w: (cut.x - item.x) as i32, h: cut.h };
        let c = Rect { x: right, y: cut.y, w: (item.x + item.w - right) as i32, h: cut.h };
        let d = Rect { x: item.x, y: bottom, w: item.w, h: (item.y + item.h - bottom) as i32 };
        let (ea, eb, ec, ed) = (unless_empty(a), unless_empty(b), unless_empty(c), unless_empty(d));
        lemma_cover_count_one(a, px, py);
        lemma_cover_count_one(b, px, py);
        lemma_cover_count_one(c, px, py);
        lemma_cover_count_one(d, px, py);
        lemma_cover_count_concat(ea, eb, px, py);
        lemma_cover_count_concat(ea + eb, ec, px, py);
        lemma_cover_count_concat(ea + eb + ec, ed, px, py);
        assert(pieces(item, other) == ea + eb + ec + ed);
    }
}

proof fn lemma_subtracted_prefix_count(rects: Seq<Rect>, other: Rect, n: nat, px: int, py: int)
    requires
        n <= rects.len(),
        all_valid(rects),
        other.valid(),
    ensures
        cover_count(untouched(rects, other, n), px, py) + cover_count(
            split(rects, other, n),
            px,
            py,
        ) == if other.covers(px, py) {
            0nat
        } else {
            cover_count(rects.take(n as int), px, py)
        },
    decreases n,
{
    if n > 0 {
        let less = (n - 1) as nat;
        let item = rects[n - 1];
        lemma_subtracted_prefix_count(rects, other, less, px, py);
        let (u, s) = (untouched(rects, other, less), split(rects, other, less));
        assert(rects.take(n as int).drop_last() =~= rects.take(less as int));
        if item.overlaps(other) {
            lemma_pieces_count(item, other, px, py);
            lemma_cover_count_concat(s, pieces(item, other), px, py);
        } else {
            assert(u.push(item).drop_last() =~= u);
        }
    }
}

/// What is left holds each pixel as often as the rectangles did, and none that another one
/// holds: no two parts of a rectangle overlap.
pub proof fn lemma_subtraction_doubles_nothing(
    rects: Seq<Rect>,
    others: Seq<Rect>,
    n: nat,
    px: int,
    py: int,
)
    requires
        n <= others.len(),
        all_valid(rects),
        all_valid(others),
    ensures
        cover_count(subtracted_all(rects, others, n), px, py) == if any_covers(
            others.take(n as int),
            px,
            py,
        ) {
            0nat
        } else {
            cover_count(rects, px, py)
        },
    decreases n,
{
    if n > 0 {
        let less = (n - 1) as nat;
        lemma_subtraction_doubles_nothing(rects, others, less, px, py);
        let before = subtracted_all(rects, others, less);
        let other = others[n - 1];
        lemma_subtracted_all(rects, others, less);
        let (u, s) = (
            untouched(before, other, before.len()),
            split(before, other, before.len()),
        );
        lemma_subtracted_prefix_count(before, other, before.len(), px, py);
        assert(before.take(before.len() as int) =~= before);
        lemma_cover_count_concat(u, s, px, py);
        assert(others.take(n as int) =~= others.take(less as int) + seq![other]);
        lemma_any_covers_concat(others.take(less as int), seq![other], px, py);
        assert(any_covers(seq![other], px, py) <==> other.covers(px, py)) by {
            assert(seq![other][0] == other);
        }
    }
}

/// A rectangle that lies in its area can be transformed, and stays in the transformed area.
pub proof fn lemma_inner_rects_can_be_transformed(
    transform: TransformDef,
    rect: Rect,
    area: (i32, i32),
)
    requires
        rect.valid(),
        0 <= rect.x,
        0 <= rect.y,
        rect.x + rect.w <= area.0,
        rect.y + rect.h <= area.1,
    ensures
        transform_fits(transform, rect, area),
        ({
            let turned = transformed(transform, rect, area);
            let (w, h) = if swaps_axes(transform) {
                (area.1, area.0)
            } else {
                area
            };
            &&& turned.valid()
            &&& 0 <= turned.x && turned.x + turned.w <= w
            &&& 0 <= turned.y && turned.y + turned.h <= h
        }),
{
}

/// Validity, overlap and containment, by pixels: a valid rectangle with an area overlaps
/// another such exactly if they share a pixel, and holds it exactly if it holds all of its
/// pixels.
pub proof fn lemma_overlap_is_a_shared_pixel(a: Rect, b: Rect)
    requires
        a.valid(),
        b.valid(),
        a.w > 0,
        a.h > 0,
        b.w > 0,
        b.h > 0,
    ensures
        a.overlaps(b) <==> exists|px: int, py: int|
            #![trigger a.covers(px, py)]
            a.covers(px, py) && b.covers(px, py),
        a.contains_rect(b) <==> forall|px: int, py: int|
            #![trigger b.covers(px, py)]
            b.covers(px, py) ==> a.covers(px, py),
        a.overlaps(b) <==> a.common(b) is Some,
{
    if a.overlaps(b) {
        let px = if a.x >= b.x {
            a.x as int
        } else {
            b.x as int
        };
        let py = if a.y >= b.y {
            a.y as int
        } else {
            b.y as int
        };
        assert(a.covers(px, py) && b.covers(px, py));
    }
    if forall|px: int, py: int|
        #![trigger b.covers(px, py)]
        b.covers(px, py) ==> a.covers(px, py) {
        assert(b.covers(b.x as int, b.y as int));
        assert(b.covers(b.x + b.w - 1, b.y + b.h - 1));
    }
}

/// A rectangle is empty exactly if it holds no pixel.
pub proof fn lemma_empty_rects_hold_nothing(rect: Rect)
    requires
        rect.valid(),
    ensures
        rect.is_empty() <==> forall|px: int, py: int|
            #![trigger rect.covers(px, py)]
            !rect.covers(px, py),
{
    if !rect.is_empty() {
        assert(rect.covers(rect.x as int, rect.y as int));
    }
}

/// A rectangle with an area can be transformed exactly if the top-left one of its moved
/// pixels can be named.
pub proof fn lemma_transformed_corner_is_named(
    transform: TransformDef,
    rect: Rect,
    area: (i32, i32),
)
    requires
        rect.valid(),
        !rect.is_empty(),
    ensures
        ({
            let (w, h) = (area.0 as int, area.1 as int);
            let a = moved_pixel(transform, w, h, rect.x as int, rect.y as int);
            let b = moved_pixel(transform, w, h, rect.x + rect.w - 1, rect.y + rect.h - 1);
            let left = if a.0 <= b.0 {
                a.0
            } else {
                b.0
            };
            let top = if a.1 <= b.1 {
                a.1
            } else {
                b.1
            };
            &&& transform_fits(transform, rect, area) <==> -0x8000_0000 <= left <= 0x7FFF_FFFF
                && -0x8000_0000 <= top <= 0x7FFF_FFFF
            &&& transform_fits(transform, rect, area) ==> transformed(transform, rect, area).x
                == left && transformed(transform, rect, area).y == top
        }),
{
}

} // verus!
