//! Frame buffer with a 16-bit depth buffer (z-buffer).
use vstd::prelude::*;

verus! {

/// Width of the rendering area in pixels.
pub const WIDTH: usize = 1251;

/// Height of the rendering area in pixels.
pub const HEIGHT: usize = 851;

/// Depth of an empty pixel: the farthest representable depth.
pub const FAR: u16 = 65535;

/// An opaque 8-bit RGB colour.
#[derive(Clone, Copy, Debug, PartialEq, Eq, Structural)]
pub struct Rgb {
    pub r: u8,
    pub g: u8,
    pub b: u8,
}

impl Rgb {
    pub fn new(r: u8, g: u8, b: u8) -> (c: Rgb)
        ensures
            c == (Rgb { r, g, b }),
    {
        Rgb { r, g, b }
    }
}

/// Number of pixels of a frame.
pub open spec fn frame_len() -> int {
    WIDTH * HEIGHT
}

/// Abstract content of a frame: one colour and one depth per pixel, row by row.
pub struct FrameView {
    pub colors: Seq<Rgb>,
    pub depths: Seq<u16>,
}

/// Index of pixel `(x, y)` in a row-major frame.
pub open spec fn pixel_index(x: int, y: int) -> int {
    y * WIDTH + x
}

/// Number of pixels of the half-open span `[x_start, x_end)`.
pub open spec fn span_len(x_start: i16, x_end: i16) -> int {
    if x_start < x_end {
        x_end - x_start
    } else {
        0
    }
}

/// A frame of the given size filled with one colour, every pixel at depth `FAR`.
pub open spec fn blank_view(len: int, background: Rgb) -> FrameView {
    FrameView {
        colors: Seq::new(len as nat, |i: int| background),
        depths: Seq::new(len as nat, |i: int| FAR),
    }
}

/// Depth-tested write of the pixels `base .. base + zs.len()`: pixel `base + k`
/// takes depth `zs[k]` and colour `cs[k]` exactly when `zs[k]` is nearer
/// (strictly smaller) than the depth stored there.
pub open spec fn span_spec(v: FrameView, base: int, zs: Seq<u16>, cs: Seq<Rgb>) -> FrameView {
    FrameView {
        colors: Seq::new(
            v.colors.len(),
            |i: int|
                if base <= i < base + zs.len() && zs[i - base] < v.depths[i] {
                    cs[i - base]
                } else {
                    v.colors[i]
                },
        ),
        depths: Seq::new(
            v.depths.len(),
            |i: int|
                if base <= i < base + zs.len() && zs[i - base] < v.depths[i] {
                    zs[i - base]
                } else {
                    v.depths[i]
                },
        ),
    }
}

/// The depth buffer only ever moves nearer: a span never increases a stored depth.
pub proof fn lemma_depth_never_increases(v: FrameView, base: int, zs: Seq<u16>, cs: Seq<Rgb>)
    ensures
        forall|i: int|
            0 <= i < v.depths.len() ==> #[trigger] span_spec(v, base, zs, cs).depths[i]
                <= v.depths[i],
{
}

/// Pixel `i` is drawn by both spans, with equal depths.
pub open spec fn depth_tie(base1: int, zs1: Seq<u16>, base2: int, zs2: Seq<u16>, i: int) -> bool {
    &&& base1 <= i < base1 + zs1.len()
    &&& base2 <= i < base2 + zs2.len()
    &&& zs1[i - base1] == zs2[i - base2]
}

/// The z-buffer makes the picture independent of drawing order: drawing two
/// spans in either order gives the same depths, and the same colours at
/// every pixel where the two spans do not draw at the same depth.
pub proof fn lemma_spans_commute(
    v: FrameView,
    base1: int,
    zs1: Seq<u16>,
    cs1: Seq<Rgb>,
    base2: int,
    zs2: Seq<u16>,
    cs2: Seq<Rgb>,
)
    requires
        v.colors.len() == v.depths.len(),
    ensures
        span_spec(span_spec(v, base1, zs1, cs1), base2, zs2, cs2).depths
            == span_spec(span_spec(v, base2, zs2, cs2), base1, zs1, cs1).depths,
        forall|i: int|
            0 <= i < v.colors.len() && !depth_tie(base1, zs1, base2, zs2, i) ==> #[trigger] span_spec(
                span_spec(v, base1, zs1, cs1),
                base2,
                zs2,
                cs2,
            ).colors[i] == span_spec(span_spec(v, base2, zs2, cs2), base1, zs1, cs1).colors[i],
{
    let a = span_spec(span_spec(v, base1, zs1, cs1), base2, zs2, cs2);
    let b = span_spec(span_spec(v, base2, zs2, cs2), base1, zs1, cs1);
    assert(a.depths =~= b.depths);
}

/// Whether the span `x_start .. x_end` of row `y` can be drawn: it is empty,
/// or it starts at a non-negative column and ends within the frame.
pub fn span_in_frame(y: usize, x_start: i16, x_end: i16) -> (b: bool)
    ensures
        b == (x_start < x_end ==> 0 <= x_start && pixel_index(x_end as int, y as int)
            <= frame_len()),
{
    if x_start >= x_end {
        return true;
    }
    if x_start < 0 {
        return false;
    }
    if y >= HEIGHT {
        assert(pixel_index(x_end as int, y as int) > frame_len()) by (nonlinear_arith)
            requires
                y >= HEIGHT,
                x_end > 0,
        ;
        return false;
    }
    let end: usize = y * WIDTH + (x_end as usize);
    end <= WIDTH * HEIGHT
}

/// A span to draw: the pixels `x_start .. x_end` of row `y`, with the depth
/// and colour of each.
pub struct Span {
    pub y: usize,
    pub x_start: i16,
    pub x_end: i16,
    pub depths: Vec<u16>,
    pub colors: Vec<Rgb>,
}

/// The span has one depth and one colour per pixel and lies within the frame.
pub open spec fn span_ok(s: Span) -> bool {
    &&& s.depths@.len() == span_len(s.x_start, s.x_end)
    &&& s.colors@.len() == span_len(s.x_start, s.x_end)
    &&& s.x_start < s.x_end ==> 0 <= s.x_start && pixel_index(s.x_end as int, s.y as int)
        <= frame_len()
}

/// Index of the first pixel of a span.
pub open spec fn span_base(s: Span) -> int {
    pixel_index(s.x_start as int, s.y as int)
}

/// The frame after drawing `spans` in order, each with depth test.
pub open spec fn spans_spec(v: FrameView, spans: Seq<Span>) -> FrameView
    decreases spans.len(),
{
    if spans.len() == 0 {
        v
    } else {
        let s = spans.last();
        span_spec(spans_spec(v, spans.drop_last()), span_base(s), s.depths@, s.colors@)
    }
}

/// Pixel `i` belongs to one of the spans.
pub open spec fn covered(spans: Seq<Span>, i: int) -> bool {
    exists|k: int|
        0 <= k < spans.len() && span_base(#[trigger] spans[k]) <= i < span_base(spans[k])
            + spans[k].depths@.len()
}

/// Drawing spans only ever replaces a pixel by a strictly nearer one: no
/// depth increases, a pixel whose colour changed is strictly nearer than
/// before, and the pixels outside every span are left as they were.
pub proof fn lemma_spans_only_nearer(v: FrameView, spans: Seq<Span>)
    requires
        v.colors.len() == v.depths.len(),
    ensures
        spans_spec(v, spans).colors.len() == v.colors.len(),
        spans_spec(v, spans).depths.len() == v.depths.len(),
        forall|i: int|
            0 <= i < v.depths.len() ==> {
                &&& #[trigger] spans_spec(v, spans).depths[i] <= v.depths[i]
                &&& spans_spec(v, spans).colors[i] != v.colors[i] ==> spans_spec(v, spans).depths[i]
                    < v.depths[i]
                &&& !covered(spans, i) ==> spans_spec(v, spans).colors[i] == v.colors[i]
                    && spans_spec(v, spans).depths[i] == v.depths[i]
            },
    decreases spans.len(),
{
    if spans.len() > 0 {
        let t = spans.drop_last();
        lemma_spans_only_nearer(v, t);
        let w = spans_spec(v, t);
        assert forall|i: int| 0 <= i < v.depths.len() implies {
            &&& #[trigger] spans_spec(v, spans).depths[i] <= v.depths[i]
            &&& spans_spec(v, spans).colors[i] != v.colors[i] ==> spans_spec(v, spans).depths[i]
                < v.depths[i]
            &&& !covered(spans, i) ==> spans_spec(v, spans).colors[i] == v.colors[i]
                && spans_spec(v, spans).depths[i] == v.depths[i]
        } by {
            assert(w.depths[i] <= v.depths[i]);
            if !covered(spans, i) {
                assert forall|k: int|
                    0 <= k < t.len() implies !(span_base(#[trigger] t[k]) <= i < span_base(t[k])
                    + t[k].depths@.len()) by {
                    assert(t[k] == spans[k]);
                }
                assert(!covered(t, i));
                let k = spans.len() - 1;
                assert(spans[k] == spans.last());
            }
        }
    }
}

/// The depths left by a sequence of spans do not depend on the spans'
/// colours; spans that agree in colours as well leave the same picture.
pub proof fn lemma_span_depths_ignore_colors(v: FrameView, a: Seq<Span>, b: Seq<Span>)
    requires
        a.len() == b.len(),
        forall|k: int|
            0 <= k < a.len() ==> #[trigger] a[k].y == b[k].y && a[k].x_start == b[k].x_start
                && a[k].depths@ == b[k].depths@,
    ensures
        spans_spec(v, a).depths == spans_spec(v, b).depths,
        (forall|k: int| 0 <= k < a.len() ==> #[trigger] a[k].colors@ == b[k].colors@) ==> spans_spec(v, a)
            == spans_spec(v, b),
    decreases a.len(),
{
    if a.len() > 0 {
        let n = a.len() - 1;
        assert forall|k: int| 0 <= k < n implies #[trigger] a.drop_last()[k].y == b.drop_last()[k].y
            && a.drop_last()[k].x_start == b.drop_last()[k].x_start && a.drop_last()[k].depths@
            == b.drop_last()[k].depths@ by {
            assert(a.drop_last()[k] == a[k]);
            assert(b.drop_last()[k] == b[k]);
        }
        lemma_span_depths_ignore_colors(v, a.drop_last(), b.drop_last());
        assert(a.last() == a[n]);
        assert(b.last() == b[n]);
        let wa = spans_spec(v, a.drop_last());
        let wb = spans_spec(v, b.drop_last());
        assert(spans_spec(v, a).depths =~= spans_spec(v, b).depths);
        if forall|k: int| 0 <= k < a.len() ==> #[trigger] a[k].colors@ == b[k].colors@ {
            assert forall|k: int| 0 <= k < n implies #[trigger] a.drop_last()[k].colors@
                == b.drop_last()[k].colors@ by {
                assert(a.drop_last()[k] == a[k]);
                assert(b.drop_last()[k] == b[k]);
            }
            assert(wa == wb);
            assert(spans_spec(v, a).colors =~= spans_spec(v, b).colors);
        }
    }
}

/// Span `s` draws pixel `i`.
pub open spec fn draws(s: Span, i: int) -> bool {
    pixel_index(s.x_start as int, s.y as int) <= i < pixel_index(s.x_start as int, s.y as int)
        + s.depths@.len()
}

/// Depth that span `s` draws at pixel `i`.
pub open spec fn depth_drawn(s: Span, i: int) -> u16 {
    s.depths@[i - pixel_index(s.x_start as int, s.y as int)]
}

/// Colour that span `s` draws at pixel `i`.
pub open spec fn color_drawn(s: Span, i: int) -> Rgb {
    s.colors@[i - pixel_index(s.x_start as int, s.y as int)]
}

/// What pixel `i` of `w` is after drawing `spans` on `v` with the depth
/// test: its depth is the nearest of its depth in `v` and of every depth a
/// span draws there; its colour is unchanged when no span came strictly
/// nearer, and otherwise it is the colour of the first span that drew the
/// final depth there (a later span at the same depth does not pass the test).
pub open spec fn pixel_after_spans(v: FrameView, spans: Seq<Span>, w: FrameView, i: int) -> bool {
    let d = w.depths[i];
    &&& d <= v.depths[i]
    &&& forall|k: int| 0 <= k < spans.len() && draws(#[trigger] spans[k], i) ==> d <= depth_drawn(spans[k], i)
    &&& d == v.depths[i] ==> w.colors[i] == v.colors[i]
    &&& d < v.depths[i] ==> exists|k: int|
        #![trigger spans[k]]
        0 <= k < spans.len() && draws(spans[k], i) && depth_drawn(spans[k], i) == d && color_drawn(
            spans[k],
            i,
        ) == w.colors[i] && forall|m: int|
            0 <= m < k && draws(#[trigger] spans[m], i) ==> d < depth_drawn(spans[m], i)
}

#[verifier::rlimit(60)]
proof fn lemma_pixel_after_spans(v: FrameView, spans: Seq<Span>, i: int)
    requires
        v.colors.len() == v.depths.len(),
        0 <= i < v.depths.len(),
    ensures
        pixel_after_spans(v, spans, spans_spec(v, spans), i),
    decreases spans.len(),
{
    if spans.len() > 0 {
        let t = spans.drop_last();
        let last = spans.len() - 1;
        let s = spans[last];
        assert(spans.last() == s);
        lemma_pixel_after_spans(v, t, i);
        lemma_spans_only_nearer(v, t);
        let u = spans_spec(v, t);
        let w = spans_spec(v, spans);
        assert forall|k: int| 0 <= k < t.len() implies #[trigger] t[k] == spans[k] by {}
        if draws(s, i) && depth_drawn(s, i) < u.depths[i] {
            assert(w.depths[i] == depth_drawn(s, i));
            assert(w.colors[i] == color_drawn(s, i));
            assert forall|k: int| 0 <= k < spans.len() && draws(#[trigger] spans[k], i) implies w.depths[i]
                <= depth_drawn(spans[k], i) by {
                if k < last {
                    assert(t[k] == spans[k]);
                }
            }
            assert forall|m: int| 0 <= m < last && draws(#[trigger] spans[m], i) implies w.depths[i]
                < depth_drawn(spans[m], i) by {
                assert(t[m] == spans[m]);
            }
        } else {
            assert(w.depths[i] == u.depths[i]);
            assert(w.colors[i] == u.colors[i]);
            assert forall|k: int| 0 <= k < spans.len() && draws(#[trigger] spans[k], i) implies w.depths[i]
                <= depth_drawn(spans[k], i) by {
                if k < last {
                    assert(t[k] == spans[k]);
                }
            }
            if w.depths[i] < v.depths[i] {
                let k = choose|k: int|
                    #![trigger t[k]]
                    0 <= k < t.len() && draws(t[k], i) && depth_drawn(t[k], i) == u.depths[i]
                        && color_drawn(t[k], i) == u.colors[i] && forall|m: int|
                        0 <= m < k && draws(#[trigger] t[m], i) ==> u.depths[i] < depth_drawn(t[m], i);
                assert(t[k] == spans[k]);
                assert forall|m: int| 0 <= m < k && draws(#[trigger] spans[m], i) implies w.depths[i]
                    < depth_drawn(spans[m], i) by {
                    assert(t[m] == spans[m]);
                }
            }
        }
    }
}

/// Drawing spans with the depth test, pixel by pixel: every pixel ends at
/// the nearest of its old depth and the depths drawn there, keeps its
/// colour unless a span came strictly nearer, and otherwise takes the colour
/// of the first span that drew its final depth (see `pixel_after_spans`).
pub proof fn lemma_spans_pixelwise(v: FrameView, spans: Seq<Span>)
    requires
        v.colors.len() == v.depths.len(),
    ensures
        spans_spec(v, spans).colors.len() == v.colors.len(),
        spans_spec(v, spans).depths.len() == v.depths.len(),
        forall|i: int|
            0 <= i < v.depths.len() ==> #[trigger] pixel_after_spans(v, spans, spans_spec(v, spans), i),
{
    lemma_spans_only_nearer(v, spans);
    assert forall|i: int| 0 <= i < v.depths.len() implies #[trigger] pixel_after_spans(
        v,
        spans,
        spans_spec(v, spans),
        i,
    ) by {
        lemma_pixel_after_spans(v, spans, i);
    }
}

/// Colour buffer and depth buffer of `WIDTH * HEIGHT` pixels.
pub struct FrameBuffer {
    color: Vec<Rgb>,
    depth: Vec<u16>,
}

impl View for FrameBuffer {
    type V = FrameView;

    closed spec fn view(&self) -> FrameView {
        FrameView { colors: self.color@, depths: self.depth@ }
    }
}

impl FrameBuffer {
    /// Both buffers hold exactly one entry per pixel.
    #[verifier::type_invariant]
    spec fn inv(self) -> bool {
        &&& self.color@.len() == frame_len()
        &&& self.depth@.len() == frame_len()
    }

    /// A frame painted in `background`, every depth at `FAR`.
    pub fn new(background: Rgb) -> (fb: FrameBuffer)
        ensures
            fb@ == blank_view(frame_len(), background),
    {
        let n: usize = WIDTH * HEIGHT;
        let mut color: Vec<Rgb> = Vec::new();
        let mut depth: Vec<u16> = Vec::new();
        let mut i: usize = 0;
        while i < n
            invariant
                n == frame_len(),
                i <= n,
                color@ == Seq::new(i as nat, |k: int| background),
                depth@ == Seq::new(i as nat, |k: int| FAR),
            decreases n - i,
        {
            color.push(background);
            depth.push(FAR);
            i = i + 1;
        }
        FrameBuffer { color, depth }
    }

    /// Repaints every pixel in `background` and resets every depth to `FAR`.
    pub fn clear(&mut self, background: Rgb)
        ensures
            final(self)@ == blank_view(frame_len(), background),
    {
        proof {
            use_type_invariant(&*self);
        }
        let n: usize = self.color.len();
        let mut i: usize = 0;
        while i < n
            invariant
                n == frame_len(),
                i <= n,
                self.color@.len() == n,
                self.depth@.len() == n,
                forall|k: int| 0 <= k < i ==> self.color@[k] == background,
                forall|k: int| 0 <= k < i ==> self.depth@[k] == FAR,
            decreases n - i,
        {
            self.color[i] = background;
            self.depth[i] = FAR;
            i = i + 1;
        }
        assert(self@.colors =~= blank_view(frame_len(), background).colors);
        assert(self@.depths =~= blank_view(frame_len(), background).depths);
    }

    /// Colour of pixel `i`.
    pub fn color_at(&self, i: usize) -> (c: Rgb)
        requires
            i < frame_len(),
        ensures
            c == self@.colors[i as int],
    {
        proof {
            use_type_invariant(self);
        }
        self.color[i]
    }

    /// Depth of pixel `i`.
    pub fn depth_at(&self, i: usize) -> (z: u16)
        requires
            i < frame_len(),
        ensures
            z == self@.depths[i as int],
    {
        proof {
            use_type_invariant(self);
        }
        self.depth[i]
    }

    /// All colours, row by row.
    pub fn colors(&self) -> (cs: &Vec<Rgb>)
        ensures
            cs@ == self@.colors,
            cs@.len() == frame_len(),
    {
        proof {
            use_type_invariant(self);
        }
        &self.color
    }

    /// Which pixels of the span `x_start .. x_end` of row `y` would pass the
    /// depth test: `passes[k]` when `depths[k]` is strictly nearer than the
    /// depth stored at the `k`-th pixel.
    pub fn span_passes(&self, y: usize, x_start: i16, x_end: i16, depths: &Vec<u16>) -> (passes: Vec<
        bool,
    >)
        requires
            depths.len() == span_len(x_start, x_end),
            x_start < x_end ==> 0 <= x_start && pixel_index(x_end as int, y as int)
                <= frame_len(),
        ensures
            passes@.len() == depths@.len(),
            forall|k: int|
                0 <= k < depths@.len() ==> #[trigger] passes@[k] == (depths@[k]
                    < self@.depths[pixel_index(x_start as int, y as int) + k]),
    {
        proof {
            use_type_invariant(self);
        }
        let mut passes: Vec<bool> = Vec::new();
        if x_start < x_end {
            assert(y * WIDTH <= y * WIDTH + x_end) by (nonlinear_arith)
                requires
                    x_end > 0,
            ;
            let b: usize = y * WIDTH + (x_start as usize);
            let n: usize = depths.len();
            let mut k: usize = 0;
            while k < n
                invariant
                    b == pixel_index(x_start as int, y as int),
                    n == depths@.len(),
                    b + n <= frame_len(),
                    self.depth@.len() == frame_len(),
                    k <= n,
                    passes@.len() == k,
                    forall|j: int|
                        0 <= j < k ==> #[trigger] passes@[j] == (depths@[j] < self@.depths[b + j]),
                decreases n - k,
            {
                passes.push(depths[k] < self.depth[b + k]);
                k = k + 1;
            }
        }
        passes
    }

    /// Fills the pixels `x_start .. x_end` of row `y` with depth test: the
    /// `k`-th pixel of the span gets `depths[k]` and `colors[k]` when
    /// `depths[k]` is strictly nearer than the depth stored there.
    pub fn fill_span(
        &mut self,
        y: usize,
        x_start: i16,
        x_end: i16,
        depths: &Vec<u16>,
        colors: &Vec<Rgb>,
    )
        requires
            depths.len() == span_len(x_start, x_end),
            colors.len() == span_len(x_start, x_end),
            x_start < x_end ==> 0 <= x_start && pixel_index(x_end as int, y as int)
                <= frame_len(),
        ensures
            final(self)@ == span_spec(
                old(self)@,
                pixel_index(x_start as int, y as int),
                depths@,
                colors@,
            ),
    {
        proof {
            use_type_invariant(&*self);
        }
        let ghost old_v = self@;
        let ghost base = pixel_index(x_start as int, y as int);
        if x_start < x_end {
            assert(y * WIDTH <= y * WIDTH + x_end) by (nonlinear_arith)
                requires
                    x_end > 0,
            ;
            let b: usize = y * WIDTH + (x_start as usize);
            let n: usize = depths.len();
            let mut k: usize = 0;
            while k < n
                invariant
                    b == base,
                    n == depths@.len(),
                    n == colors@.len(),
                    b + n <= frame_len(),
                    k <= n,
                    old_v.colors.len() == frame_len(),
                    old_v.depths.len() == frame_len(),
                    self.color@.len() == frame_len(),
                    self.depth@.len() == frame_len(),
                    forall|i: int|
                        0 <= i < frame_len() ==> #[trigger] self.depth@[i] == (if b <= i < b + k
                            && depths@[i - b] < old_v.depths[i] {
                            depths@[i - b]
                        } else {
                            old_v.depths[i]
                        }),
                    forall|i: int|
                        0 <= i < frame_len() ==> #[trigger] self.color@[i] == (if b <= i < b + k
                            && depths@[i - b] < old_v.depths[i] {
                            colors@[i - b]
                        } else {
                            old_v.colors[i]
                        }),
                decreases n - k,
            {
                let idx: usize = b + k;
                let z: u16 = depths[k];
                if z < self.depth[idx] {
                    self.color[idx] = colors[k];
                    self.depth[idx] = z;
                }
                k = k + 1;
            }
        }
        assert(self@.colors =~= span_spec(old_v, base, depths@, colors@).colors);
        assert(self@.depths =~= span_spec(old_v, base, depths@, colors@).depths);
    }

    /// Draws `spans` in order, each with depth test (see `fill_span`).
    pub fn fill_spans(&mut self, spans: &Vec<Span>)
        requires
            forall|k: int| 0 <= k < spans@.len() ==> span_ok(#[trigger] spans@[k]),
        ensures
            final(self)@ == spans_spec(old(self)@, spans@),
            final(self)@.colors.len() == frame_len(),
            final(self)@.depths.len() == frame_len(),
            forall|i: int|
                0 <= i < frame_len() ==> #[trigger] pixel_after_spans(
                    old(self)@,
                    spans@,
                    final(self)@,
                    i,
                ),
    {
        proof {
            use_type_invariant(&*self);
        }
        let ghost v = self@;
        let n = spans.len();
        let mut i: usize = 0;
        assert(spans@.subrange(0, 0) =~= Seq::<Span>::empty());
        while i < n
            invariant
                n == spans@.len(),
                i <= n,
                forall|k: int| 0 <= k < spans@.len() ==> span_ok(#[trigger] spans@[k]),
                self@ == spans_spec(v, spans@.subrange(0, i as int)),
            decreases n - i,
        {
            let s = &spans[i];
            assert(span_ok(spans@[i as int]));
            self.fill_span(s.y, s.x_start, s.x_end, &s.depths, &s.colors);
            assert(spans@.subrange(0, i + 1).drop_last() =~= spans@.subrange(0, i as int));
            assert(spans@.subrange(0, i + 1).last() == spans@[i as int]);
            i = i + 1;
        }
        assert(spans@.subrange(0, n as int) =~= spans@);
        proof {
            lemma_spans_pixelwise(v, spans@);
            use_type_invariant(&*self);
        }
    }
}

} // verus!
