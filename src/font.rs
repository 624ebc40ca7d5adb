use vstd::prelude::*;
use crate::geometry::{GlyphBox, Placement, CanvasSize};
use crate::packer::{
    PackingError, packing, places, glyph_packing, lemma_packing_places, lemma_packing_contained,
};
use crate::sort::{sorted_boxes, distinct_chars, lemma_sorted_boxes, lemma_distinct_chars_kept};
use crate::texture::{Format, Texture};

verus! {

broadcast use vstd::seq_lib::group_seq_properties;

/// Pixels added to the right of and below each glyph, so that a renderer
/// sampling one glyph never picks up its neighbour.
pub const GLYPH_PADDING: u32 = 1;

/// Why an atlas could not be built.
#[derive(Clone, Copy, Debug, PartialEq, Eq, Structural)]
pub enum FontError {
    /// The glyphs do not fit a canvas of the given width and height.
    CanvasTooSmall(u32, u32),
    /// The font could not give the bounding box of this character's glyph.
    GlyphBoundsFailed(char),
    /// The font could not render this character's glyph.
    GlyphRenderFailed(char),
    /// The font itself could not be had.
    SomeOther,
}

/// What the font answered when asked for a character's glyph.
#[derive(Clone, Copy, Debug, PartialEq, Eq, Structural)]
pub enum GlyphOutcome {
    /// The font has no glyph for the character.
    NoGlyph,
    /// The font has a glyph but could not measure it.
    BoundsFailed,
    /// The glyph's pixel width and height.
    Bounds(i32, i32),
}

#[derive(Clone, Copy, Debug, PartialEq, Eq, Structural)]
pub struct GlyphQuery {
    pub character: char,
    pub outcome: GlyphOutcome,
}

/// The rectangle of the atlas that holds a character's glyph, in pixels.
#[derive(Clone, Copy, Debug, PartialEq, Eq, Structural)]
pub struct CharRegion {
    pub character: char,
    pub x: u32,
    pub y: u32,
    pub width: u32,
    pub height: u32,
}

/// Where a glyph is to be rendered: the point of the canvas that its
/// rendering origin is moved to, at the bottom left of its box.
#[derive(Clone, Copy, Debug, PartialEq, Eq, Structural)]
pub struct RenderJob {
    pub character: char,
    pub origin_x: u32,
    pub origin_y: u32,
}

/// The layout of an atlas before its glyphs are rendered.
pub struct AtlasPlan {
    pub size: CanvasSize,
    pub placements: Vec<Placement>,
}

/// The padded boxes of the measured glyphs, or the first failure in query order.
pub open spec fn collected(q: Seq<GlyphQuery>) -> Result<Seq<GlyphBox>, FontError>
    decreases q.len(),
{
    if q.len() == 0 {
        Ok(seq![])
    } else {
        match collected(q.drop_last()) {
            Err(e) => Err(e),
            Ok(bs) => {
                let c = q.last().character;
                match q.last().outcome {
                    GlyphOutcome::NoGlyph => Ok(bs),
                    GlyphOutcome::BoundsFailed => Err(FontError::GlyphBoundsFailed(c)),
                    GlyphOutcome::Bounds(w, h) => if w < 0 || h < 0 {
                        Err(FontError::GlyphBoundsFailed(c))
                    } else {
                        Ok(
                            bs.push(
                                GlyphBox {
                                    character: c,
                                    width: (w + GLYPH_PADDING) as u32,
                                    height: (h + GLYPH_PADDING) as u32,
                                },
                            ),
                        )
                    },
                }
            },
        }
    }
}

pub open spec fn distinct_queries(q: Seq<GlyphQuery>) -> bool {
    forall|i: int, j: int|
        0 <= i < q.len() && 0 <= j < q.len() && i != j ==> (#[trigger] q[i]).character != (
        #[trigger] q[j]).character
}

/// What `plan_atlas` yields for the queries `q` and the extent `max`.
pub open spec fn planned(q: Seq<GlyphQuery>, max: u32) -> Result<(Seq<Placement>, CanvasSize), FontError> {
    match collected(q) {
        Err(e) => Err(e),
        Ok(bs) => match packing(bs, max as int) {
            None => Err(FontError::CanvasTooSmall(max, max)),
            Some(pc) => Ok(pc),
        },
    }
}

/// `p` lies inside the canvas and is at least as large as the padding.
pub open spec fn placed_within(p: Placement, size: CanvasSize) -> bool {
    &&& p.x + p.width <= size.width
    &&& p.y + p.height <= size.height
    &&& p.width >= GLYPH_PADDING
    &&& p.height >= GLYPH_PADDING
}

/// A laid-out atlas: boxes inside the canvas, at least as large as the
/// padding, with distinct characters.
pub open spec fn plan_wf(size: CanvasSize, p: Seq<Placement>) -> bool {
    &&& forall|k: int| 0 <= k < p.len() ==> placed_within(#[trigger] p[k], size)
    &&& forall|i: int, j: int|
        0 <= i < p.len() && 0 <= j < p.len() && i != j ==> (#[trigger] p[i]).character != (
        #[trigger] p[j]).character
}

/// The part of a placement that holds the glyph, without its padding.
pub open spec fn region_of(p: Placement) -> CharRegion {
    CharRegion {
        character: p.character,
        x: p.x,
        y: p.y,
        width: (p.width - GLYPH_PADDING) as u32,
        height: (p.height - GLYPH_PADDING) as u32,
    }
}

pub open spec fn render_job_of(p: Placement) -> RenderJob {
    RenderJob { character: p.character, origin_x: p.x, origin_y: (p.y + p.height) as u32 }
}

proof fn lemma_collected_boxes(q: Seq<GlyphQuery>)
    ensures
        collected(q) matches Ok(bs) ==> {
            &&& forall|k: int|
                0 <= k < bs.len() ==> #[trigger] bs[k].width >= GLYPH_PADDING && bs[k].height
                    >= GLYPH_PADDING
            &&& forall|k: int|
                0 <= k < bs.len() ==> exists|i: int|
                    0 <= i < q.len() && q[i].character == (#[trigger] bs[k]).character
            &&& distinct_queries(q) ==> distinct_chars(bs)
        },
    decreases q.len(),
{
    if q.len() > 0 {
        let p = q.drop_last();
        lemma_collected_boxes(p);
        if let Ok(bs) = collected(q) {
            if let Ok(pb) = collected(p) {
                let c = q.last().character;
                if bs != pb {
                    assert(q.last().outcome is Bounds);
                    assert(bs.drop_last() =~= pb);
                    assert(bs.last().character == c);
                    assert(q[q.len() - 1].character == c);
                }
                assert forall|k: int| 0 <= k < pb.len() implies exists|i: int|
                    0 <= i < q.len() && q[i].character == (#[trigger] pb[k]).character by {
                    let i = choose|i: int| 0 <= i < p.len() && p[i].character == pb[k].character;
                    assert(q[i] == p[i]);
                }
                if distinct_queries(q) {
                    assert(distinct_queries(p)) by {
                        assert forall|i: int, j: int|
                            0 <= i < p.len() && 0 <= j < p.len() && i != j implies (
                        #[trigger] p[i]).character != (#[trigger] p[j]).character by {
                            assert(p[i] == q[i] && p[j] == q[j]);
                        }
                    }
                    assert forall|k: int| 0 <= k < pb.len() implies (
                    #[trigger] pb[k]).character != q.last().character by {
                        let i = choose|i: int|
                            0 <= i < p.len() && p[i].character == pb[k].character;
                        assert(q[i] == p[i]);
                    }
                    if bs != pb {
                        assert forall|i: int, j: int|
                            0 <= i < bs.len() && 0 <= j < bs.len() && i != j implies (
                        #[trigger] bs[i]).character != (#[trigger] bs[j]).character by {
                            if i < pb.len() {
                                assert(bs[i] == pb[i]);
                            }
                            if j < pb.len() {
                                assert(bs[j] == pb[j]);
                            }
                        }
                    }
                }
            }
        }
    }
}

/// Turns the font's answers into padded boxes: a character without a glyph
/// is left out, one that could not be measured fails the whole build.
pub fn collect_boxes(queries: &Vec<GlyphQuery>) -> (r: Result<Vec<GlyphBox>, FontError>)
    ensures
        match r {
            Ok(v) => collected(queries@) == Ok::<Seq<GlyphBox>, FontError>(v@),
            Err(e) => collected(queries@) == Err::<Seq<GlyphBox>, FontError>(e),
        },
{
    let mut out: Vec<GlyphBox> = Vec::new();
    let n = queries.len();
    for i in 0..n
        invariant
            n == queries@.len(),
            collected(queries@.subrange(0, i as int)) == Ok::<Seq<GlyphBox>, FontError>(out@),
    {
        let q = queries[i];
        proof {
            assert(queries@.subrange(0, i + 1).drop_last() =~= queries@.subrange(0, i as int));
        }
        match q.outcome {
            GlyphOutcome::NoGlyph => {},
            GlyphOutcome::BoundsFailed => {
                proof {
                    lemma_collect_fail_stays(queries@, i + 1, n as int);
                    assert(queries@.subrange(0, n as int) =~= queries@);
                }
                return Err(FontError::GlyphBoundsFailed(q.character));
            },
            GlyphOutcome::Bounds(w, h) => {
                if w < 0 || h < 0 {
                    proof {
                        lemma_collect_fail_stays(queries@, i + 1, n as int);
                        assert(queries@.subrange(0, n as int) =~= queries@);
                    }
                    return Err(FontError::GlyphBoundsFailed(q.character));
                }
                out.push(
                    GlyphBox {
                        character: q.character,
                        width: w as u32 + GLYPH_PADDING,
                        height: h as u32 + GLYPH_PADDING,
                    },
                );
            },
        }
    }
    assert(queries@.subrange(0, n as int) =~= queries@);
    Ok(out)
}

proof fn lemma_collect_fail_stays(q: Seq<GlyphQuery>, i: int, k: int)
    requires
        0 <= i <= k <= q.len(),
        collected(q.subrange(0, i)) is Err,
    ensures
        collected(q.subrange(0, k)) == collected(q.subrange(0, i)),
    decreases k - i,
{
    if k > i {
        lemma_collect_fail_stays(q, i, k - 1);
        assert(q.subrange(0, k).drop_last() =~= q.subrange(0, k - 1));
    }
}

/// Lays out an atlas: measures are padded, then packed within `max_extent`.
/// Fails with the first glyph that could not be measured, or where the
/// padded glyphs do not fit.
pub fn plan_atlas(queries: &Vec<GlyphQuery>, max_extent: u32) -> (r: Result<AtlasPlan, FontError>)
    requires
        distinct_queries(queries@),
    ensures
        match r {
            Ok(plan) => planned(queries@, max_extent) == Ok::<
                (Seq<Placement>, CanvasSize),
                FontError,
            >((plan.placements@, plan.size)) && plan_wf(plan.size, plan.placements@)
                && plan.size.width <= max_extent && plan.size.height <= max_extent,
            Err(e) => planned(queries@, max_extent) == Err::<
                (Seq<Placement>, CanvasSize),
                FontError,
            >(e),
        },
{
    let boxes = collect_boxes(queries);
    match boxes {
        Err(e) => Err(e),
        Ok(boxes) => {
            proof {
                lemma_collected_boxes(queries@);
                lemma_packing_places(boxes@, max_extent);
                lemma_packing_contained(boxes@, max_extent);
                lemma_sorted_boxes(boxes@);
                lemma_distinct_chars_kept(boxes@, sorted_boxes(boxes@));
            }
            match glyph_packing(&boxes, max_extent) {
                Err(PackingError::CanvasTooSmall(w, h)) => Err(FontError::CanvasTooSmall(w, h)),
                Ok((placements, size)) => {
                    proof {
                        let s = sorted_boxes(boxes@);
                        assert forall|k: int| 0 <= k < placements@.len() implies #[trigger] placements@[k].width
                            >= GLYPH_PADDING && placements@[k].height >= GLYPH_PADDING by {
                            assert(places(placements@[k], s[k]));
                            assert(s.to_multiset().count(s[k]) > 0) by {
                                s.to_multiset_ensures();
                                assert(s.contains(s[k]));
                            }
                            boxes@.to_multiset_ensures();
                            s.to_multiset_ensures();
                            assert(boxes@.contains(s[k]));
                        }
                        assert forall|i: int, j: int|
                            0 <= i < placements@.len() && 0 <= j < placements@.len() && i != j implies (
                        #[trigger] placements@[i]).character != (#[trigger] placements@[j]).character by {
                            assert(places(placements@[i], s[i]));
                            assert(places(placements@[j], s[j]));
                        }
                    }
                    Ok(AtlasPlan { size, placements })
                },
            }
        },
    }
}

/// Where each placed glyph is to be rendered.
pub fn rasterize_glyphs(plan: &AtlasPlan) -> (r: Vec<RenderJob>)
    requires
        plan_wf(plan.size, plan.placements@),
    ensures
        r@.len() == plan.placements@.len(),
        forall|k: int| 0 <= k < r@.len() ==> #[trigger] r@[k] == render_job_of(plan.placements@[k]),
{
    let mut out: Vec<RenderJob> = Vec::new();
    let n = plan.placements.len();
    for i in 0..n
        invariant
            n == plan.placements@.len(),
            plan_wf(plan.size, plan.placements@),
            out@.len() == i,
            forall|k: int| 0 <= k < i ==> #[trigger] out@[k] == render_job_of(plan.placements@[k]),
    {
        let p = plan.placements[i];
        assert(p.y + p.height <= plan.size.height);
        out.push(RenderJob { character: p.character, origin_x: p.x, origin_y: p.y + p.height });
    }
    out
}

/// `r` lies inside a canvas of the given size.
pub open spec fn region_within(r: CharRegion, size: CanvasSize) -> bool {
    r.x + r.width <= size.width && r.y + r.height <= size.height
}

/// A finished atlas: a grayscale buffer of one byte per canvas pixel, and
/// regions with distinct characters that lie inside it.
pub open spec fn atlas_wf(t: Texture, m: Seq<CharRegion>) -> bool {
    &&& t.wf()
    &&& t.format == Format::Grayscale
    &&& forall|k: int| 0 <= k < m.len() ==> region_within(#[trigger] m[k], t.size)
    &&& forall|i: int, j: int|
        0 <= i < m.len() && 0 <= j < m.len() && i != j ==> (#[trigger] m[i]).character != (
        #[trigger] m[j]).character
}

/// A glyph atlas: the rendered glyphs and where each character's glyph lies.
pub struct Font {
    atlas: Texture,
    map: Vec<CharRegion>,
}

impl Font {
    pub closed spec fn spec_atlas(&self) -> Texture {
        self.atlas
    }

    pub closed spec fn spec_map(&self) -> Seq<CharRegion> {
        self.map@
    }

    pub open spec fn wf(&self) -> bool {
        atlas_wf(self.spec_atlas(), self.spec_map())
    }

    #[verifier::type_invariant]
    spec fn inv(&self) -> bool {
        atlas_wf(self.atlas, self.map@)
    }

    pub fn new(atlas: Texture, map: Vec<CharRegion>) -> (r: Font)
        requires
            atlas_wf(atlas, map@),
        ensures
            r.wf(),
            r.spec_atlas() == atlas,
            r.spec_map() == map@,
    {
        Font { atlas, map }
    }

    pub fn atlas(&self) -> (r: &Texture)
        ensures
            *r == self.spec_atlas(),
    {
        &self.atlas
    }

    pub fn map(&self) -> (r: &Vec<CharRegion>)
        ensures
            r@ == self.spec_map(),
    {
        &self.map
    }

    /// The region of `c`'s glyph, if the atlas holds one.
    pub fn region(&self, c: char) -> (r: Option<CharRegion>)
        ensures
            r matches Some(reg) ==> reg.character == c && self.spec_map().contains(reg),
            r is None <==> forall|k: int|
                0 <= k < self.spec_map().len() ==> (#[trigger] self.spec_map()[k]).character != c,
    {
        let n = self.map.len();
        for i in 0..n
            invariant
                n == self.map@.len(),
                forall|k: int| 0 <= k < i ==> (#[trigger] self.map@[k]).character != c,
        {
            if self.map[i].character == c {
                assert(self.spec_map()[i as int].character == c);
                return Some(self.map[i]);
            }
        }
        None
    }

    /// The intensity at column `px` and row `py` of `c`'s glyph, or `None`
    /// where the atlas has no glyph for `c` or the point lies outside it.
    pub fn glyph_pixel(&self, c: char, px: u32, py: u32) -> (r: Option<u8>)
        ensures
            self.wf(),
            r is None <==> forall|k: int|
                0 <= k < self.spec_map().len() && (#[trigger] self.spec_map()[k]).character == c
                    ==> px >= self.spec_map()[k].width || py >= self.spec_map()[k].height,
            r matches Some(v) ==> exists|k: int|
                0 <= k < self.spec_map().len() && (#[trigger] self.spec_map()[k]).character == c
                    && v == self.spec_atlas().pixels@[(self.spec_map()[k].y + py)
                    * self.spec_atlas().size.width + self.spec_map()[k].x + px],
    {
        proof {
            use_type_invariant(self);
        }
        match self.region(c) {
            None => None,
            Some(reg) => {
                let k = Ghost(choose|k: int| 0 <= k < self.spec_map().len() && self.spec_map()[k] == reg);
                proof {
                    assert forall|j: int|
                        0 <= j < self.spec_map().len() && (#[trigger] self.spec_map()[j]).character == c
                        implies j == k@ by {}
                }
                if px >= reg.width || py >= reg.height {
                    None
                } else {
                    proof {
                        lemma_region_in_bounds(self, reg, px as int, py as int);
                    }
                    let len = self.atlas.pixels.len();
                    let row = (reg.y + py) as usize;
                    let col = (reg.x + px) as usize;
                    let width = self.atlas.size.width as usize;
                    assert(row * width + col < len);
                    let i = row * width + col;
                    Some(self.atlas.pixels[i])
                }
            },
        }
    }
}

/// Builds the atlas from a plan and the buffer its glyphs were rendered into:
/// each character's region is its placement without the padding.
pub fn assemble_atlas(plan: AtlasPlan, pixels: Vec<u8>) -> (r: Font)
    requires
        plan_wf(plan.size, plan.placements@),
        pixels@.len() == plan.size.width * plan.size.height,
    ensures
        r.wf(),
        r.spec_atlas().size == plan.size,
        r.spec_atlas().format == Format::Grayscale,
        r.spec_atlas().pixels@ == pixels@,
        r.spec_map().len() == plan.placements@.len(),
        forall|k: int|
            0 <= k < plan.placements@.len() ==> #[trigger] r.spec_map()[k] == region_of(
                plan.placements@[k],
            ),
{
    let mut map: Vec<CharRegion> = Vec::new();
    let n = plan.placements.len();
    for i in 0..n
        invariant
            n == plan.placements@.len(),
            plan_wf(plan.size, plan.placements@),
            map@.len() == i,
            forall|k: int| 0 <= k < i ==> #[trigger] map@[k] == region_of(plan.placements@[k]),
    {
        let p = plan.placements[i];
        assert(placed_within(plan.placements@[i as int], plan.size));
        map.push(
            CharRegion {
                character: p.character,
                x: p.x,
                y: p.y,
                width: p.width - GLYPH_PADDING,
                height: p.height - GLYPH_PADDING,
            },
        );
    }
    proof {
        assert forall|k: int| 0 <= k < map@.len() implies region_within(#[trigger] map@[k], plan.size) by {
            assert(placed_within(plan.placements@[k], plan.size));
        }
        assert forall|i: int, j: int|
            0 <= i < map@.len() && 0 <= j < map@.len() && i != j implies (#[trigger] map@[i]).character
            != (#[trigger] map@[j]).character by {
            assert(plan.placements@[i].character != plan.placements@[j].character);
        }
    }
    let texture = Texture::new(plan.size, Format::Grayscale, pixels);
    Font::new(texture, map)
}

/// A region of an atlas is its placement less the padding on the right and
/// at the bottom: it starts at the placement's corner and stops one padding
/// short of its right and bottom edges.
pub proof fn lemma_region_excludes_padding(p: Placement, size: CanvasSize)
    requires
        placed_within(p, size),
    ensures
        region_of(p).x == p.x && region_of(p).y == p.y,
        region_of(p).x + region_of(p).width + GLYPH_PADDING == p.x + p.width,
        region_of(p).y + region_of(p).height + GLYPH_PADDING == p.y + p.height,
        region_within(region_of(p), size),
{
}

/// Reading any pixel of a region of an atlas stays inside its buffer.
pub proof fn lemma_region_in_bounds(font: &Font, reg: CharRegion, px: int, py: int)
    requires
        font.wf(),
        font.spec_map().contains(reg),
        0 <= px < reg.width,
        0 <= py < reg.height,
    ensures
        0 <= (reg.y + py) * font.spec_atlas().size.width + reg.x + px
            < font.spec_atlas().pixels@.len(),
{
    let t = font.spec_atlas();
    let k = choose|k: int| 0 <= k < font.spec_map().len() && font.spec_map()[k] == reg;
    assert(region_within(font.spec_map()[k], t.size));
    let w = t.size.width as int;
    let h = t.size.height as int;
    let row = reg.y + py;
    let col = reg.x + px;
    assert(0 <= row * w + col < w * h) by (nonlinear_arith)
        requires
            0 <= row < h,
            0 <= col < w,
    ;
}

} // verus!
