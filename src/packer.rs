use vstd::prelude::*;
use crate::geometry::{GlyphBox, Placement, CanvasSize};
use crate::sort::{
    insert_box, sorted_boxes, sort_boxes, lemma_insert_is_insert, lemma_sorted_boxes,
    lemma_sorted_unique,
};

verus! {

broadcast use vstd::seq_lib::group_seq_properties;

/// Why a set of boxes could not be packed.
#[derive(Clone, Copy, Debug, PartialEq, Eq, Structural)]
pub enum PackingError {
    /// The boxes do not fit a square canvas of the given width and height.
    CanvasTooSmall(u32, u32),
}

/// The packer's cursor after some boxes have been placed.
pub struct ShelfState {
    pub x: int,
    pub y: int,
    pub shelf: int,
    pub wmax: int,
    pub placed: Seq<Placement>,
}

pub open spec fn shelf_start() -> ShelfState {
    ShelfState { x: 0, y: 0, shelf: 0, wmax: 0, placed: seq![] }
}

pub open spec fn max_int(a: int, b: int) -> int {
    if a >= b {
        a
    } else {
        b
    }
}

/// Places one box: on the current shelf if it fits within `max` horizontally,
/// else at the start of a new shelf; `None` where it does not fit.
pub open spec fn shelf_step(st: ShelfState, b: GlyphBox, max: int) -> Option<ShelfState> {
    let new_shelf = st.x + b.width > max;
    let x = if new_shelf { 0 } else { st.x };
    let y = if new_shelf { st.y + st.shelf } else { st.y };
    let shelf = if new_shelf { 0 } else { st.shelf };
    if x + b.width > max || y + b.height > max {
        None
    } else {
        Some(ShelfState {
            x: x + b.width,
            y,
            shelf: max_int(shelf, b.height as int),
            wmax: max_int(st.wmax, x + b.width),
            placed: st.placed.push(
                Placement {
                    character: b.character,
                    x: x as u32,
                    y: y as u32,
                    width: b.width,
                    height: b.height,
                },
            ),
        })
    }
}

/// Places the boxes of `s` in sequence order.
pub open spec fn shelf_run(s: Seq<GlyphBox>, max: int) -> Option<ShelfState>
    decreases s.len(),
{
    if s.len() == 0 {
        Some(shelf_start())
    } else {
        match shelf_run(s.drop_last(), max) {
            Some(st) => shelf_step(st, s.last(), max),
            None => None,
        }
    }
}

/// The placements and canvas size that packing `boxes` within `max` yields,
/// or `None` where they do not fit.
pub open spec fn packing(boxes: Seq<GlyphBox>, max: int) -> Option<(Seq<Placement>, CanvasSize)> {
    match shelf_run(sorted_boxes(boxes), max) {
        Some(st) => Some(
            (st.placed, CanvasSize { width: st.wmax as u32, height: (st.y + st.shelf) as u32 }),
        ),
        None => None,
    }
}

/// The rectangles of `a` and `b` share no pixel.
pub open spec fn disjoint(a: Placement, b: Placement) -> bool {
    ||| a.x + a.width <= b.x
    ||| b.x + b.width <= a.x
    ||| a.y + a.height <= b.y
    ||| b.y + b.height <= a.y
}

/// `p` is the box `b` at some position.
pub open spec fn places(p: Placement, b: GlyphBox) -> bool {
    p.character == b.character && p.width == b.width && p.height == b.height
}

pub open spec fn boxes_area(s: Seq<GlyphBox>) -> int
    decreases s.len(),
{
    if s.len() == 0 {
        0
    } else {
        boxes_area(s.drop_last()) + s.last().width * s.last().height
    }
}

/// What holds of the packer's state after it placed the boxes `s`.
pub open spec fn run_inv(s: Seq<GlyphBox>, st: ShelfState, max: int) -> bool {
    &&& 0 <= st.x <= st.wmax <= max
    &&& 0 <= st.y
    &&& 0 <= st.shelf
    &&& st.y + st.shelf <= max
    &&& st.placed.len() == s.len()
    &&& forall|k: int| 0 <= k < s.len() ==> places(#[trigger] st.placed[k], s[k])
    &&& forall|k: int|
        0 <= k < s.len() ==> {
            let p = #[trigger] st.placed[k];
            &&& p.x + p.width <= st.wmax
            &&& (p.y + p.height <= st.y || (p.y == st.y && p.x + p.width <= st.x && p.height
                <= st.shelf))
        }
    &&& forall|i: int, j: int|
        0 <= i < s.len() && 0 <= j < s.len() && i != j ==> disjoint(
            #[trigger] st.placed[i],
            #[trigger] st.placed[j],
        )
    &&& boxes_area(s) <= max * st.y + st.x * st.shelf
}

proof fn lemma_step_inv(s: Seq<GlyphBox>, st: ShelfState, b: GlyphBox, max: int)
    requires
        run_inv(s, st, max),
        max <= u32::MAX,
    ensures
        shelf_step(st, b, max) matches Some(nst) ==> run_inv(s.push(b), nst, max),
{
    if let Some(nst) = shelf_step(st, b, max) {
        let t = s.push(b);
        let new_shelf = st.x + b.width > max;
        let x = if new_shelf { 0 } else { st.x };
        let y = if new_shelf { st.y + st.shelf } else { st.y };
        let shelf = if new_shelf { 0 } else { st.shelf };
        let np = nst.placed.last();
        assert(np.x == x && np.y == y);
        assert(t.drop_last() =~= s);
        assert forall|k: int| 0 <= k < t.len() implies places(#[trigger] nst.placed[k], t[k]) by {
            if k < s.len() {
                assert(nst.placed[k] == st.placed[k]);
            }
        }
        assert forall|k: int| 0 <= k < t.len() implies {
            let p = #[trigger] nst.placed[k];
            &&& p.x + p.width <= nst.wmax
            &&& (p.y + p.height <= nst.y || (p.y == nst.y && p.x + p.width <= nst.x && p.height
                <= nst.shelf))
        } by {
            if k < s.len() {
                assert(nst.placed[k] == st.placed[k]);
            }
        }
        assert forall|i: int, j: int|
            0 <= i < t.len() && 0 <= j < t.len() && i != j implies disjoint(
            #[trigger] nst.placed[i],
            #[trigger] nst.placed[j],
        ) by {
            if i < s.len() {
                assert(nst.placed[i] == st.placed[i]);
            }
            if j < s.len() {
                assert(nst.placed[j] == st.placed[j]);
            }
        }
        let a = boxes_area(s);
        let w = b.width as int;
        let h = b.height as int;
        assert(st.x * st.shelf <= max * st.shelf) by (nonlinear_arith)
            requires
                st.x <= max,
                0 <= st.shelf,
        ;
        assert(a <= max * y + x * shelf) by {
            if new_shelf {
                assert(max * y == max * st.y + max * st.shelf) by (nonlinear_arith)
                    requires
                        y == st.y + st.shelf,
                ;
            }
        }
        assert(a + w * h <= max * y + (x + w) * max_int(shelf, h)) by (nonlinear_arith)
            requires
                a <= max * y + x * shelf,
                0 <= x,
                0 <= w,
                0 <= shelf,
                0 <= h,
                shelf <= max_int(shelf, h),
                h <= max_int(shelf, h),
        ;
    }
}

/// Every state that the packer reaches satisfies `run_inv`.
pub proof fn lemma_run_inv(s: Seq<GlyphBox>, max: int)
    requires
        0 <= max <= u32::MAX,
    ensures
        shelf_run(s, max) matches Some(st) ==> run_inv(s, st, max),
    decreases s.len(),
{
    if s.len() > 0 {
        let p = s.drop_last();
        lemma_run_inv(p, max);
        if let Some(st) = shelf_run(p, max) {
            lemma_step_inv(p, st, s.last(), max);
            assert(p.push(s.last()) =~= s);
        }
    }
}

/// Packs `boxes` into shelves: sorted taller first (then by character, then
/// narrower first), each placed right of the previous one, and on a new shelf
/// below where it would pass `max_extent`. Fails where a box would pass
/// `max_extent` in either direction.
pub fn glyph_packing(boxes: &Vec<GlyphBox>, max_extent: u32) -> (r: Result<
    (Vec<Placement>, CanvasSize),
    PackingError,
>)
    ensures
        r is Err <==> packing(boxes@, max_extent as int) is None,
        r is Err ==> r == Err::<(Vec<Placement>, CanvasSize), PackingError>(
            PackingError::CanvasTooSmall(max_extent, max_extent),
        ),
        r matches Ok((v, c)) ==> packing(boxes@, max_extent as int) == Some((v@, c)),
{
    let sorted = sort_boxes(boxes);
    let max: u64 = max_extent as u64;
    let mut x: u64 = 0;
    let mut y: u64 = 0;
    let mut shelf: u64 = 0;
    let mut wmax: u64 = 0;
    let mut placed: Vec<Placement> = Vec::new();
    let n = sorted.len();
    proof {
        lemma_run_inv(sorted@.subrange(0, 0), max as int);
    }
    for i in 0..n
        invariant
            n == sorted@.len(),
            sorted@ == sorted_boxes(boxes@),
            max == max_extent,
            shelf_run(sorted@.subrange(0, i as int), max as int) == Some(
                ShelfState {
                    x: x as int,
                    y: y as int,
                    shelf: shelf as int,
                    wmax: wmax as int,
                    placed: placed@,
                },
            ),
            x <= max,
            y + shelf <= max,
            wmax <= max,
    {
        let b = sorted[i];
        proof {
            let s = sorted@.subrange(0, i + 1);
            assert(s.drop_last() =~= sorted@.subrange(0, i as int));
        }
        if x + b.width as u64 > max {
            y = y + shelf;
            x = 0;
            shelf = 0;
        }
        if x + b.width as u64 > max || y + b.height as u64 > max {
            proof {
                let s = sorted@.subrange(0, i + 1);
                assert(shelf_run(s, max as int) is None);
                assert forall|k: int| i + 1 <= k <= n implies shelf_run(
                    #[trigger] sorted@.subrange(0, k),
                    max as int,
                ) is None by {
                    lemma_fail_stays(sorted@, i + 1, k, max as int);
                }
                assert(shelf_run(sorted@.subrange(0, n as int), max as int) is None);
                assert(sorted@.subrange(0, n as int) =~= sorted@);
            }
            return Err(PackingError::CanvasTooSmall(max_extent, max_extent));
        }
        placed.push(
            Placement { character: b.character, x: x as u32, y: y as u32, width: b.width, height: b.height },
        );
        x = x + b.width as u64;
        if b.height as u64 > shelf {
            shelf = b.height as u64;
        }
        if x > wmax {
            wmax = x;
        }
    }
    assert(sorted@.subrange(0, n as int) =~= sorted@);
    Ok((placed, CanvasSize { width: wmax as u32, height: (y + shelf) as u32 }))
}

proof fn lemma_fail_stays(s: Seq<GlyphBox>, i: int, k: int, max: int)
    requires
        0 <= i <= k <= s.len(),
        shelf_run(s.subrange(0, i), max) is None,
    ensures
        shelf_run(s.subrange(0, k), max) is None,
    decreases k - i,
{
    if k > i {
        lemma_fail_stays(s, i, k - 1, max);
        assert(s.subrange(0, k).drop_last() =~= s.subrange(0, k - 1));
    }
}

/// Where packing succeeds, it places each box of the packing order, in that
/// order, with its own character and size.
pub proof fn lemma_packing_places(boxes: Seq<GlyphBox>, max: u32)
    ensures
        packing(boxes, max as int) matches Some((p, c)) ==> {
            &&& p.len() == boxes.len()
            &&& forall|k: int| 0 <= k < p.len() ==> places(#[trigger] p[k], sorted_boxes(boxes)[k])
        },
{
    lemma_sorted_boxes(boxes);
    lemma_run_inv(sorted_boxes(boxes), max as int);
}

/// No two placements of a successful packing overlap.
pub proof fn lemma_packing_no_overlap(boxes: Seq<GlyphBox>, max: u32)
    ensures
        packing(boxes, max as int) matches Some((p, c)) ==> forall|i: int, j: int|
            0 <= i < p.len() && 0 <= j < p.len() && i != j ==> disjoint(
                #[trigger] p[i],
                #[trigger] p[j],
            ),
{
    lemma_run_inv(sorted_boxes(boxes), max as int);
}

/// Every placement of a successful packing lies inside the canvas, and the
/// canvas is no larger than `max` in either direction.
pub proof fn lemma_packing_contained(boxes: Seq<GlyphBox>, max: u32)
    ensures
        packing(boxes, max as int) matches Some((p, c)) ==> {
            &&& c.width <= max
            &&& c.height <= max
            &&& forall|k: int|
                0 <= k < p.len() ==> #[trigger] p[k].x + p[k].width <= c.width && p[k].y
                    + p[k].height <= c.height
        },
{
    lemma_run_inv(sorted_boxes(boxes), max as int);
}

/// Packing depends only on which boxes are given, not on their order: two
/// sequences that hold the same boxes pack identically.
pub proof fn lemma_packing_same_boxes(a: Seq<GlyphBox>, b: Seq<GlyphBox>, max: u32)
    requires
        a.to_multiset() == b.to_multiset(),
    ensures
        packing(a, max as int) == packing(b, max as int),
{
    lemma_sorted_boxes(a);
    lemma_sorted_boxes(b);
    lemma_sorted_unique(sorted_boxes(a), sorted_boxes(b));
}

proof fn lemma_area_insert(t: Seq<GlyphBox>, j: int, b: GlyphBox)
    requires
        0 <= j <= t.len(),
    ensures
        boxes_area(t.insert(j, b)) == boxes_area(t) + b.width * b.height,
    decreases t.len(),
{
    if j == t.len() {
        assert(t.insert(j, b).drop_last() =~= t);
    } else {
        lemma_area_insert(t.drop_last(), j, b);
        assert(t.insert(j, b).drop_last() =~= t.drop_last().insert(j, b));
    }
}

proof fn lemma_sorted_area(s: Seq<GlyphBox>)
    ensures
        boxes_area(sorted_boxes(s)) == boxes_area(s),
    decreases s.len(),
{
    if s.len() > 0 {
        let p = s.drop_last();
        lemma_sorted_area(p);
        lemma_insert_is_insert(s.last(), sorted_boxes(p));
        let j = choose|j: int|
            0 <= j <= sorted_boxes(p).len() && insert_box(s.last(), sorted_boxes(p))
                == sorted_boxes(p).insert(j, s.last());
        lemma_area_insert(sorted_boxes(p), j, s.last());
    }
}

/// Boxes whose total area exceeds `max * max` never fit.
pub proof fn lemma_packing_area_overflow(boxes: Seq<GlyphBox>, max: u32)
    requires
        boxes_area(boxes) > max * max,
    ensures
        packing(boxes, max as int) is None,
{
    let s = sorted_boxes(boxes);
    lemma_run_inv(s, max as int);
    lemma_sorted_area(boxes);
    if let Some(st) = shelf_run(s, max as int) {
        let m = max as int;
        assert(boxes_area(s) <= m * m) by (nonlinear_arith)
            requires
                boxes_area(s) <= m * st.y + st.x * st.shelf,
                0 <= st.x <= m,
                0 <= st.y,
                0 <= st.shelf,
                st.y + st.shelf <= m,
        ;
    }
}

/// A box wider or taller than `max` never fits.
pub proof fn lemma_packing_oversized_box(boxes: Seq<GlyphBox>, max: u32, k: int)
    requires
        0 <= k < boxes.len(),
        boxes[k].width > max || boxes[k].height > max,
    ensures
        packing(boxes, max as int) is None,
{
    let s = sorted_boxes(boxes);
    lemma_sorted_boxes(boxes);
    lemma_run_inv(s, max as int);
    if let Some(st) = shelf_run(s, max as int) {
        boxes.to_multiset_ensures();
        s.to_multiset_ensures();
        assert(boxes.contains(boxes[k]));
        assert(s.to_multiset().count(boxes[k]) > 0);
        assert(s.contains(boxes[k]));
        let i = choose|i: int| 0 <= i < s.len() && s[i] == boxes[k];
        let p = st.placed[i];
        assert(places(p, s[i]));
    }
}

/// Packing no boxes succeeds with an empty canvas and no placements.
pub proof fn lemma_packing_empty(max: u32)
    ensures
        packing(Seq::<GlyphBox>::empty(), max as int) == Some(
            (Seq::<Placement>::empty(), CanvasSize { width: 0, height: 0 }),
        ),
{
    assert(sorted_boxes(Seq::<GlyphBox>::empty()) == Seq::<GlyphBox>::empty());
}

} // verus!
