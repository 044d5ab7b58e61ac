//! Prototype renderer for the browser: a packed RGBA colour buffer on which
//! the eight corners of a cube, already in screen coordinates, are plotted
//! as white pixels, and moved by a fixed offset at every frame.
use vstd::prelude::*;

verus! {

/// Background colour, packed as `0xAABBGGRR`: opaque black.
pub const BLACK: u32 = 0xFF000000;

/// Colour of a plotted corner: opaque white.
pub const WHITE: u32 = 0xFFFFFFFF;

/// Depth of an empty pixel: the farthest representable depth.
pub const FAR_DEPTH: u16 = 65535;

/// Screen columns of the corners when the renderer is created.
pub open spec fn initial_xs() -> Seq<usize> {
    seq![550usize, 670, 675, 550, 430, 550, 550, 425]
}

/// Screen rows of the corners when the renderer is created.
pub open spec fn initial_ys() -> Seq<usize> {
    seq![600usize, 658, 540, 485, 658, 721, 600, 540]
}

/// Abstract state of the renderer.
pub struct RendererView {
    pub width: nat,
    pub height: nat,
    pub xs: Seq<usize>,
    pub ys: Seq<usize>,
    pub colors: Seq<u32>,
    pub depths: Seq<u16>,
}

/// Pixel `k` of a buffer `width` pixels wide holds one of the corners.
pub open spec fn is_corner_pixel(width: nat, xs: Seq<usize>, ys: Seq<usize>, k: int) -> bool {
    exists|i: int| 0 <= i < 8 && #[trigger] ys[i] * width + xs[i] == k
}

/// A frame of `len` pixels: white at the corners, black elsewhere.
pub open spec fn corners_frame(len: nat, width: nat, xs: Seq<usize>, ys: Seq<usize>) -> Seq<u32> {
    Seq::new(len, |k: int| if is_corner_pixel(width, xs, ys, k) { WHITE } else { BLACK })
}

/// Every corner lies within a buffer of `width * height` pixels.
pub open spec fn corners_fit(width: nat, height: nat, xs: Seq<usize>, ys: Seq<usize>) -> bool {
    forall|i: int| 0 <= i < 8 ==> #[trigger] ys[i] * width + xs[i] < width * height
}

/// Each coordinate moved by `d`.
pub open spec fn shifted(s: Seq<usize>, d: int) -> Seq<usize> {
    Seq::new(s.len(), |i: int| (s[i] + d) as usize)
}

/// Shifting the corners by `(dx, dy)` overflows no coordinate and keeps
/// every corner within the buffer.
pub open spec fn can_move(v: RendererView, dx: int, dy: int) -> bool {
    &&& forall|i: int| 0 <= i < 8 ==> #[trigger] v.xs[i] + dx <= usize::MAX
    &&& forall|i: int| 0 <= i < 8 ==> #[trigger] v.ys[i] + dy <= usize::MAX
    &&& corners_fit(v.width, v.height, shifted(v.xs, dx), shifted(v.ys, dy))
}

/// The state after a frame that moved the corners by `(dx, dy)`.
pub open spec fn frame_after(v: RendererView, dx: int, dy: int) -> RendererView {
    let xs = shifted(v.xs, dx);
    let ys = shifted(v.ys, dy);
    RendererView {
        width: v.width,
        height: v.height,
        xs: xs,
        ys: ys,
        colors: corners_frame(v.width * v.height, v.width, xs, ys),
        depths: Seq::new(v.width * v.height, |k: int| FAR_DEPTH),
    }
}

/// Screen positions of the eight corners.
struct Corners {
    xs: Vec<usize>,
    ys: Vec<usize>,
}

/// Colour buffer, depth buffer and the eight corners of the cube.
pub struct SoftwareRenderer {
    width: usize,
    height: usize,
    corners: Corners,
    color_buffer: Vec<u32>,
    z_buffer: Vec<u16>,
}

impl View for SoftwareRenderer {
    type V = RendererView;

    closed spec fn view(&self) -> RendererView {
        RendererView {
            width: self.width as nat,
            height: self.height as nat,
            xs: self.corners.xs@,
            ys: self.corners.ys@,
            colors: self.color_buffer@,
            depths: self.z_buffer@,
        }
    }
}

/// The buffers hold one entry per pixel, there are eight corners, and all
/// of them lie within the buffer.
pub open spec fn renderer_wf(v: RendererView) -> bool {
    &&& v.width * v.height <= usize::MAX
    &&& v.colors.len() == v.width * v.height
    &&& v.depths.len() == v.width * v.height
    &&& v.xs.len() == 8
    &&& v.ys.len() == 8
    &&& corners_fit(v.width, v.height, v.xs, v.ys)
}

impl SoftwareRenderer {
    #[verifier::type_invariant]
    spec fn inv(self) -> bool {
        renderer_wf(self@)
    }

    /// Paints white the corner pixels of the current corners.
    fn plot_corners(&mut self)
        requires
            forall|k: int|
                0 <= k < old(self)@.colors.len() ==> #[trigger] old(self)@.colors[k] == BLACK,
        ensures
            final(self)@ == (RendererView {
                colors: corners_frame(
                    old(self)@.width * old(self)@.height,
                    old(self)@.width,
                    old(self)@.xs,
                    old(self)@.ys,
                ),
                ..old(self)@
            }),
    {
        proof {
            use_type_invariant(&*self);
        }
        let ghost v = self@;
        let ghost len = (v.width * v.height) as nat;
        let mut i: usize = 0;
        while i < 8
            invariant
                renderer_wf(v),
                len == v.width * v.height,
                self@ == (RendererView { colors: self@.colors, ..v }),
                self@.colors.len() == len,
                i <= 8,
                forall|k: int|
                    0 <= k < len ==> #[trigger] self@.colors[k] == (if exists|j: int|
                        0 <= j < i && #[trigger] v.ys[j] * v.width + v.xs[j] == k {
                        WHITE
                    } else {
                        BLACK
                    }),
            decreases 8 - i,
        {
            proof {
                assert(v.ys[i as int] * v.width + v.xs[i as int] < len);
                assert(v.ys[i as int] * v.width <= v.ys[i as int] * v.width + v.xs[i as int]);
            }
            let y = self.corners.ys[i];
            let x = self.corners.xs[i];
            let idx: usize = y * self.width + x;
            self.color_buffer[idx] = WHITE;
            proof {
                assert forall|k: int| 0 <= k < len implies #[trigger] self@.colors[k] == (if exists|j: int|
                    0 <= j < i + 1 && #[trigger] v.ys[j] * v.width + v.xs[j] == k {
                    WHITE
                } else {
                    BLACK
                }) by {
                    if k == idx {
                        assert(v.ys[i as int] * v.width + v.xs[i as int] == k);
                    }
                }
            }
            i = i + 1;
        }
        assert(self@.colors =~= corners_frame(len, v.width, v.xs, v.ys));
    }

    /// A renderer with buffers of `width * height` pixels: every pixel black
    /// and at the farthest depth, then the corners at their initial
    /// positions plotted in white.
    pub fn new(width: usize, height: usize) -> (r: SoftwareRenderer)
        requires
            width * height <= usize::MAX,
            corners_fit(width as nat, height as nat, initial_xs(), initial_ys()),
        ensures
            r@ == (RendererView {
                width: width as nat,
                height: height as nat,
                xs: initial_xs(),
                ys: initial_ys(),
                colors: corners_frame((width * height) as nat, width as nat, initial_xs(), initial_ys()),
                depths: Seq::new((width * height) as nat, |k: int| FAR_DEPTH),
            }),
    {
        let size: usize = width * height;
        let mut color_buffer: Vec<u32> = Vec::new();
        let mut z_buffer: Vec<u16> = Vec::new();
        let mut k: usize = 0;
        while k < size
            invariant
                k <= size,
                color_buffer@ == Seq::new(k as nat, |j: int| BLACK),
                z_buffer@ == Seq::new(k as nat, |j: int| FAR_DEPTH),
            decreases size - k,
        {
            color_buffer.push(BLACK);
            z_buffer.push(FAR_DEPTH);
            k = k + 1;
        }
        let xs: Vec<usize> = vec![550, 670, 675, 550, 430, 550, 550, 425];
        let ys: Vec<usize> = vec![600, 658, 540, 485, 658, 721, 600, 540];
        assert(xs@ =~= initial_xs());
        assert(ys@ =~= initial_ys());
        let mut r = SoftwareRenderer { width, height, corners: Corners { xs, ys }, color_buffer, z_buffer };
        r.plot_corners();
        r
    }

    /// Paints every pixel black and resets every depth to the farthest one.
    pub fn clear(&mut self)
        ensures
            final(self)@ == (RendererView {
                colors: Seq::new(old(self)@.colors.len(), |k: int| BLACK),
                depths: Seq::new(old(self)@.depths.len(), |k: int| FAR_DEPTH),
                ..old(self)@
            }),
    {
        proof {
            use_type_invariant(&*self);
        }
        let ghost v = self@;
        let n = self.color_buffer.len();
        let mut k: usize = 0;
        while k < n
            invariant
                renderer_wf(v),
                n == v.colors.len(),
                self@ == (RendererView { colors: self@.colors, depths: self@.depths, ..v }),
                self@.colors.len() == n,
                self@.depths.len() == n,
                k <= n,
                forall|j: int| 0 <= j < k ==> #[trigger] self@.colors[j] == BLACK,
                forall|j: int| 0 <= j < k ==> #[trigger] self@.depths[j] == FAR_DEPTH,
            decreases n - k,
        {
            self.color_buffer[k] = BLACK;
            self.z_buffer[k] = FAR_DEPTH;
            k = k + 1;
        }
        assert(self@.colors =~= Seq::new(n as nat, |k: int| BLACK));
        assert(self@.depths =~= Seq::new(n as nat, |k: int| FAR_DEPTH));
    }

    /// Draws one frame: clears both buffers, moves every corner by
    /// `(dx, dy)` and plots the corners at their new positions.
    pub fn render_frame(&mut self, dx: usize, dy: usize)
        requires
            can_move(old(self)@, dx as int, dy as int),
        ensures
            final(self)@ == frame_after(old(self)@, dx as int, dy as int),
    {
        proof {
            use_type_invariant(&*self);
        }
        let ghost v = self@;
        self.clear();
        let mut xs: Vec<usize> = Vec::new();
        let mut ys: Vec<usize> = Vec::new();
        let mut i: usize = 0;
        while i < 8
            invariant
                i <= 8,
                renderer_wf(v),
                self@.xs == v.xs,
                self@.ys == v.ys,
                forall|j: int| 0 <= j < 8 ==> #[trigger] v.xs[j] + dx <= usize::MAX,
                forall|j: int| 0 <= j < 8 ==> #[trigger] v.ys[j] + dy <= usize::MAX,
                xs@.len() == i,
                ys@.len() == i,
                forall|j: int| 0 <= j < i ==> #[trigger] xs@[j] == v.xs[j] + dx,
                forall|j: int| 0 <= j < i ==> #[trigger] ys@[j] == v.ys[j] + dy,
            decreases 8 - i,
        {
            xs.push(self.corners.xs[i] + dx);
            ys.push(self.corners.ys[i] + dy);
            i = i + 1;
        }
        assert(xs@ =~= shifted(v.xs, dx as int));
        assert(ys@ =~= shifted(v.ys, dy as int));
        self.corners = Corners { xs, ys };
        self.plot_corners();
        assert(self@.depths =~= Seq::new(v.width * v.height, |k: int| FAR_DEPTH));
    }

    /// The colour buffer, one packed `0xAABBGGRR` value per pixel.
    pub fn color_buffer(&self) -> (c: &Vec<u32>)
        ensures
            c@ == self@.colors,
    {
        &self.color_buffer
    }
}

/// Whether corner `(x, y)` lies within a buffer `width` pixels wide of
/// `size` pixels, computed without overflow.
fn corner_fits(x: usize, y: usize, width: usize, size: usize) -> (b: bool)
    ensures
        b == (y * width + x < size),
{
    match y.checked_mul(width) {
        Some(row) => match row.checked_add(x) {
            Some(idx) => idx < size,
            None => false,
        },
        None => {
            assert(y * width + x >= size) by (nonlinear_arith)
                requires
                    y * width > usize::MAX,
                    size <= usize::MAX,
            ;
            false
        },
    }
}

impl SoftwareRenderer {
    /// Whether a renderer of `width * height` pixels can be created: the
    /// size fits in a `usize` and every initial corner lies within it.
    pub fn fits(width: usize, height: usize) -> (b: bool)
        ensures
            b == (width * height <= usize::MAX && corners_fit(
                width as nat,
                height as nat,
                initial_xs(),
                initial_ys(),
            )),
    {
        let size = match width.checked_mul(height) {
            Some(s) => s,
            None => {
                return false;
            },
        };
        let xs: [usize; 8] = [550, 670, 675, 550, 430, 550, 550, 425];
        let ys: [usize; 8] = [600, 658, 540, 485, 658, 721, 600, 540];
        assert(xs@ =~= initial_xs());
        assert(ys@ =~= initial_ys());
        let mut i: usize = 0;
        while i < 8
            invariant
                i <= 8,
                size == width * height,
                xs@ == initial_xs(),
                ys@ == initial_ys(),
                forall|j: int| 0 <= j < i ==> #[trigger] ys@[j] * width + xs@[j] < width * height,
            decreases 8 - i,
        {
            if !corner_fits(xs[i], ys[i], width, size) {
                return false;
            }
            i = i + 1;
        }
        true
    }

    /// Whether a frame can move the corners by `(dx, dy)` (see `can_move`).
    pub fn can_move(&self, dx: usize, dy: usize) -> (b: bool)
        ensures
            b == can_move(self@, dx as int, dy as int),
    {
        proof {
            use_type_invariant(self);
        }
        let size: usize = self.width * self.height;
        let mut i: usize = 0;
        while i < 8
            invariant
                renderer_wf(self@),
                size == self@.width * self@.height,
                i <= 8,
                forall|j: int| 0 <= j < i ==> #[trigger] self@.xs[j] + dx <= usize::MAX,
                forall|j: int| 0 <= j < i ==> #[trigger] self@.ys[j] + dy <= usize::MAX,
                forall|j: int|
                    0 <= j < i ==> #[trigger] shifted(self@.ys, dy as int)[j] * self@.width
                        + shifted(self@.xs, dx as int)[j] < self@.width * self@.height,
            decreases 8 - i,
        {
            let x = match self.corners.xs[i].checked_add(dx) {
                Some(x) => x,
                None => {
                    return false;
                },
            };
            let y = match self.corners.ys[i].checked_add(dy) {
                Some(y) => y,
                None => {
                    return false;
                },
            };
            if !corner_fits(x, y, self.width, size) {
                assert(shifted(self@.ys, dy as int)[i as int] == y);
                assert(shifted(self@.xs, dx as int)[i as int] == x);
                return false;
            }
            i = i + 1;
        }
        true
    }
}

/// Two frames moving the corners by `(dx1, dy1)` then `(dx2, dy2)` leave the
/// renderer as one frame moving them by `(dx1 + dx2, dy1 + dy2)`; in
/// particular a frame that does not move them redraws the same picture.
pub proof fn lemma_frames_compose(v: RendererView, dx1: int, dy1: int, dx2: int, dy2: int)
    requires
        v.xs.len() == 8,
        v.ys.len() == 8,
        forall|i: int| 0 <= i < 8 ==> 0 <= #[trigger] v.xs[i] + dx1 <= usize::MAX,
        forall|i: int| 0 <= i < 8 ==> 0 <= #[trigger] v.ys[i] + dy1 <= usize::MAX,
        forall|i: int| 0 <= i < 8 ==> 0 <= #[trigger] v.xs[i] + dx1 + dx2 <= usize::MAX,
        forall|i: int| 0 <= i < 8 ==> 0 <= #[trigger] v.ys[i] + dy1 + dy2 <= usize::MAX,
    ensures
        frame_after(frame_after(v, dx1, dy1), dx2, dy2) == frame_after(v, dx1 + dx2, dy1 + dy2),
{
    let a = frame_after(frame_after(v, dx1, dy1), dx2, dy2);
    let b = frame_after(v, dx1 + dx2, dy1 + dy2);
    assert(a.xs =~= b.xs);
    assert(a.ys =~= b.ys);
    assert(a.colors =~= b.colors);
    assert(a.depths =~= b.depths);
}

} // verus!
