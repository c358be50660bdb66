//! The canvas: a display buffer, a supersized buffer with its depth buffer,
//! depth-tested pixel writes and the SSAA resolve from one to the other.
use vstd::prelude::*;
use crate::color::{
    alpha_blend, blend_channel, blue_of, green_of, lemma_channels_packed, packed, red_of,
    rgb_u8_from_u32, rgb_u8_to_u32, Color, CHANNEL_MAX,
};
use crate::scanline::{fill_started, IntegerVector2d, ScanlineFill};

verus! {

/// The depth that an empty depth-buffer cell holds: nothing is farther.
pub const DEPTH_FAR: i64 = 0x7fff_ffff_ffff_ffff;

/// Supersampling level. The fractional levels render at a lower resolution
/// and magnify; the others render at a higher one and box-filter it down.
#[derive(Clone, Copy, Debug, PartialEq, Eq, Structural)]
pub enum SSAA {
    /// One eighth of the display resolution on each axis.
    X0_125,
    /// One quarter of the display resolution on each axis.
    X0_25,
    /// The display resolution.
    X1,
    /// Twice the display resolution on each axis.
    X4,
    /// Four times the display resolution on each axis.
    X16,
    /// Eight times the display resolution on each axis.
    X64,
}

/// Why a canvas could not be set up.
#[derive(Clone, Copy, Debug, PartialEq, Eq, Structural)]
pub enum CanvasError {
    /// An upscaling level needs a display size that its factor divides.
    SizeNotDivisible,
}

/// How many supersized pixels one display pixel spans on each axis: at
/// least 1 for supersampling.
pub open spec fn spec_magnification(s: SSAA) -> int {
    match s {
        SSAA::X4 => 2,
        SSAA::X16 => 4,
        SSAA::X64 => 8,
        _ => 1,
    }
}

/// How many display pixels one supersized pixel spans on each axis: at
/// least 1 for upscaling.
pub open spec fn spec_reduction(s: SSAA) -> int {
    match s {
        SSAA::X0_125 => 8,
        SSAA::X0_25 => 4,
        _ => 1,
    }
}

/// The supersized length of a display length `n` at level `s`.
pub open spec fn supersized_len(s: SSAA, n: int) -> int {
    n * spec_magnification(s) / spec_reduction(s)
}

/// A display size is usable at level `s` when the reduction divides both sides.
pub open spec fn size_fits_level(s: SSAA, size_x: int, size_y: int) -> bool {
    size_x % spec_reduction(s) == 0 && size_y % spec_reduction(s) == 0
}

/// The level one step finer than `s`, if there is one.
pub open spec fn spec_finer(s: SSAA) -> Option<SSAA> {
    match s {
        SSAA::X0_125 => Some(SSAA::X0_25),
        SSAA::X0_25 => Some(SSAA::X1),
        SSAA::X1 => Some(SSAA::X4),
        SSAA::X4 => Some(SSAA::X16),
        SSAA::X16 => Some(SSAA::X64),
        SSAA::X64 => None,
    }
}

/// The level one step coarser than `s`, if there is one.
pub open spec fn spec_coarser(s: SSAA) -> Option<SSAA> {
    match s {
        SSAA::X0_125 => None,
        SSAA::X0_25 => Some(SSAA::X0_125),
        SSAA::X1 => Some(SSAA::X0_25),
        SSAA::X4 => Some(SSAA::X1),
        SSAA::X16 => Some(SSAA::X4),
        SSAA::X64 => Some(SSAA::X16),
    }
}

/// The name of level `s`.
pub open spec fn spec_description(s: SSAA) -> Seq<char> {
    match s {
        SSAA::X0_125 => "0.125X SSAA (Upscaling mode)"@,
        SSAA::X0_25 => "0.25X SSAA (Upscaling mode)"@,
        SSAA::X1 => "1X SSAA"@,
        SSAA::X4 => "4X SSAA"@,
        SSAA::X16 => "16X SSAA"@,
        SSAA::X64 => "64X SSAA"@,
    }
}

impl SSAA {
    /// Supersized pixels per display pixel on each axis (1 when upscaling).
    pub fn magnification(&self) -> (m: usize)
        ensures
            m == spec_magnification(*self),
    {
        match self {
            SSAA::X4 => 2,
            SSAA::X16 => 4,
            SSAA::X64 => 8,
            _ => 1,
        }
    }

    /// Display pixels per supersized pixel on each axis (1 when supersampling).
    pub fn reduction(&self) -> (d: usize)
        ensures
            d == spec_reduction(*self),
    {
        match self {
            SSAA::X0_125 => 8,
            SSAA::X0_25 => 4,
            _ => 1,
        }
    }

    /// A human-readable name of the level.
    pub fn description(&self) -> (d: &'static str)
        ensures
            d@ == spec_description(*self),
    {
        match self {
            SSAA::X0_125 => "0.125X SSAA (Upscaling mode)",
            SSAA::X0_25 => "0.25X SSAA (Upscaling mode)",
            SSAA::X1 => "1X SSAA",
            SSAA::X4 => "4X SSAA",
            SSAA::X16 => "16X SSAA",
            SSAA::X64 => "64X SSAA",
        }
    }
}

/// The `0x00RRGGBB` pixel that results from laying `c` over the pixel `p`.
pub open spec fn blended_pixel(p: u32, c: Color) -> int {
    packed(
        blend_channel(red_of(p), c.r as int, c.a as int),
        blend_channel(green_of(p), c.g as int, c.a as int),
        blend_channel(blue_of(p), c.b as int, c.a as int),
    )
}

/// Colour and depth buffers after a depth-tested write of colour `c` at depth
/// `z` to cell `i`: only a strictly nearer depth is written.
pub open spec fn z_write(buf: Seq<u32>, zs: Seq<i64>, i: int, z: i64, c: Color) -> (Seq<u32>, Seq<i64>) {
    if z < zs[i] {
        (buf.update(i, blended_pixel(buf[i], c) as u32), zs.update(i, z))
    } else {
        (buf, zs)
    }
}

/// Channel `ch` (0 red, 1 green, 2 blue) of a packed pixel.
pub open spec fn channel_of(p: u32, ch: int) -> int {
    if ch == 0 {
        red_of(p)
    } else if ch == 1 {
        green_of(p)
    } else {
        blue_of(p)
    }
}

/// Sum of channel `ch` over the first `k` cells, in row-major order, of the
/// `m`-by-`m` block whose top-left cell is `(x0, y0)` in a buffer of width `w`.
pub open spec fn block_sum(buf: Seq<u32>, w: int, x0: int, y0: int, m: int, ch: int, k: nat) -> int
    decreases k,
{
    if k == 0 {
        0
    } else {
        let j = k - 1;
        block_sum(buf, w, x0, y0, m, ch, j as nat) + channel_of(buf[(y0 + j / m) * w + x0 + j % m], ch)
    }
}

/// The display pixel `(x, y)` after a box filter over its `m`-by-`m` block of
/// a supersized buffer of width `w`: each channel's mean, rounded down.
pub open spec fn box_pixel(buf: Seq<u32>, w: int, m: int, x: int, y: int) -> int {
    packed(
        block_sum(buf, w, m * x, m * y, m, 0, (m * m) as nat) / (m * m),
        block_sum(buf, w, m * x, m * y, m, 1, (m * m) as nat) / (m * m),
        block_sum(buf, w, m * x, m * y, m, 2, (m * m) as nat) / (m * m),
    )
}

/// A display pixel's value after the SSAA resolve of the supersized buffer
/// `buf` of width `w`.
pub open spec fn resolved_pixel(s: SSAA, buf: Seq<u32>, w: int, x: int, y: int) -> int {
    if spec_reduction(s) > 1 {
        buf[(y / spec_reduction(s)) * w + x / spec_reduction(s)] as int
    } else {
        box_pixel(buf, w, spec_magnification(s), x, y)
    }
}

/// The final-resolution buffer plus the supersized colour and depth buffers.
/// Both colour buffers are row-major with row 0 at the top of the image.
/// A depth is an integer that orders as the depth it stands for: smaller is
/// nearer.
#[derive(Clone, Debug)]
pub struct Canvas {
    pub size_x: usize,
    pub size_y: usize,
    pub buffer: Vec<u32>,
    pub buffer_supersized: Vec<u32>,
    pub z_buffer_supersized: Vec<i64>,
    pub bg_color: Color,
    pub ssaa: SSAA,
    pub size_x_supersized: usize,
    pub size_y_supersized: usize,
    pub size_x_supersized_half: usize,
    pub size_y_supersized_half: usize,
}

impl Canvas {
    /// The sizes and buffer lengths agree with the level.
    pub open spec fn wf(&self) -> bool {
        &&& size_in_range(self.size_x as int, self.size_y as int)
        &&& size_fits_level(self.ssaa, self.size_x as int, self.size_y as int)
        &&& self.size_x_supersized == supersized_len(self.ssaa, self.size_x as int)
        &&& self.size_y_supersized == supersized_len(self.ssaa, self.size_y as int)
        &&& self.size_x_supersized_half == self.size_x_supersized / 2
        &&& self.size_y_supersized_half == self.size_y_supersized / 2
        &&& self.buffer@.len() == self.size_x * self.size_y
        &&& self.buffer_supersized@.len() == self.size_x_supersized * self.size_y_supersized
        &&& self.z_buffer_supersized@.len() == self.size_x_supersized * self.size_y_supersized
    }

    /// Whether `(x, y)` lies inside the supersized buffer.
    pub open spec fn spec_in_canvas(&self, x: int, y: int) -> bool {
        0 <= x < self.size_x_supersized && 0 <= y < self.size_y_supersized
    }

    /// The buffer cell of supersized pixel `(x, y)`, with `y` counted from the
    /// bottom of the image.
    pub open spec fn spec_buffer_index(&self, x: int, y: int) -> int {
        (self.size_y_supersized - 1 - y) * self.size_x_supersized + x
    }
}


/// `a * w + b` lies in a `h`-by-`w` grid when `a < h` and `b < w`.
proof fn lemma_grid_index(a: int, b: int, h: int, w: int)
    requires
        0 <= a < h,
        0 <= b < w,
    ensures
        0 <= a * w + b < h * w,
{
    assert(a * w + b < h * w) by (nonlinear_arith)
        requires 0 <= a < h, 0 <= b < w;
    assert(0 <= a * w) by (nonlinear_arith)
        requires 0 <= a, 0 <= b < w;
}

/// Overwrites every element of `v` with `x`.
fn fill_all<T: Copy>(v: &mut Vec<T>, x: T)
    ensures
        final(v)@.len() == old(v)@.len(),
        forall|i: int| 0 <= i < final(v)@.len() ==> final(v)@[i] == x,
{
    let n = v.len();
    let mut i: usize = 0;
    while i < n
        invariant
            0 <= i <= n,
            n == v@.len(),
            forall|j: int| 0 <= j < i ==> v@[j] == x,
        decreases n - i,
    {
        v[i] = x;
        i += 1;
    }
}

/// A vector of `n` copies of `x`.
fn filled<T: Copy>(x: T, n: usize) -> (v: Vec<T>)
    ensures
        v@.len() == n,
        forall|i: int| 0 <= i < n ==> v@[i] == x,
{
    let mut v: Vec<T> = Vec::with_capacity(n);
    let mut i: usize = 0;
    while i < n
        invariant
            0 <= i <= n,
            v@.len() == i,
            forall|j: int| 0 <= j < i ==> v@[j] == x,
        decreases n - i,
    {
        v.push(x);
        i += 1;
    }
    v
}

/// A display size whose buffers, at every level, have lengths and indices
/// that fit in `usize`.
pub open spec fn size_in_range(size_x: int, size_y: int) -> bool {
    &&& 0 <= size_x
    &&& 0 <= size_y
    &&& size_x * 8 <= usize::MAX
    &&& size_y * 8 <= usize::MAX
    &&& size_x * size_y * 64 <= usize::MAX
}

/// The supersized sizes, their halves, and a cleared supersized colour and
/// depth buffer for a `size_x`-by-`size_y` display at level `ssaa` with
/// background `bg_color`; or the reason the level does not fit that size.
pub fn calc_ssaa_variables(ssaa: &SSAA, size_x: usize, size_y: usize, bg_color: &Color) -> (r: Result<
    (usize, usize, usize, usize, Vec<u32>, Vec<i64>),
    CanvasError,
>)
    requires
        size_in_range(size_x as int, size_y as int),
    ensures
        r is Ok <==> size_fits_level(*ssaa, size_x as int, size_y as int),
        r matches Ok((sx, sy, hx, hy, buf, zs)) ==> {
            &&& sx == supersized_len(*ssaa, size_x as int)
            &&& sy == supersized_len(*ssaa, size_y as int)
            &&& hx == sx / 2
            &&& hy == sy / 2
            &&& buf@.len() == sx * sy
            &&& zs@.len() == sx * sy
            &&& forall|i: int| 0 <= i < buf@.len() ==> buf@[i] == packed(
                bg_color.r as int,
                bg_color.g as int,
                bg_color.b as int,
            )
            &&& forall|i: int| 0 <= i < zs@.len() ==> zs@[i] == DEPTH_FAR
        },
        r matches Err(e) ==> e == CanvasError::SizeNotDivisible,
{
    let m = ssaa.magnification();
    let d = ssaa.reduction();
    if size_x % d != 0 || size_y % d != 0 {
        return Err(CanvasError::SizeNotDivisible);
    }
    proof {
        lemma_supersized_bounds(*ssaa, size_x as int, size_y as int);
        assert(size_x * m <= size_x * 8 && size_y * m <= size_y * 8) by (nonlinear_arith)
            requires m <= 8;
    }
    let sx = size_x * m / d;
    let sy = size_y * m / d;
    let n = sx * sy;
    let bg = bg_color.as_u32();
    Ok((sx, sy, sx / 2, sy / 2, filled(bg, n), filled(DEPTH_FAR, n)))
}

/// Bounds of the supersized sizes of an in-range display size.
proof fn lemma_supersized_bounds(s: SSAA, a: int, b: int)
    requires
        size_in_range(a, b),
    ensures
        0 <= supersized_len(s, a) <= 8 * a,
        0 <= supersized_len(s, b) <= 8 * b,
        supersized_len(s, a) * supersized_len(s, b) <= usize::MAX,
        supersized_len(s, b) * supersized_len(s, a) <= usize::MAX,
        a * b <= usize::MAX,
{
    let m = spec_magnification(s);
    let d = spec_reduction(s);
    let sa = supersized_len(s, a);
    let sb = supersized_len(s, b);
    assert(0 <= sa <= a * m && 0 <= sb <= b * m) by (nonlinear_arith)
        requires 0 <= a, 0 <= b, 1 <= m, 1 <= d, sa == a * m / d, sb == b * m / d;
    assert(a * m <= 8 * a && b * m <= 8 * b) by (nonlinear_arith)
        requires 0 <= a, 0 <= b, m <= 8;
    assert(sa * sb <= a * b * 64) by (nonlinear_arith)
        requires 0 <= sa <= a * m, 0 <= sb <= b * m, 1 <= m <= 8, 0 <= a, 0 <= b;
    assert(sb * sa == sa * sb) by (nonlinear_arith);
    assert(a * b <= a * b * 64) by (nonlinear_arith)
        requires 0 <= a, 0 <= b;
}

impl Canvas {
    /// Every field but the supersized colour and depth buffers is as in `o`.
    pub open spec fn same_layout(&self, o: &Canvas) -> bool {
        &&& self.size_x == o.size_x
        &&& self.size_y == o.size_y
        &&& self.buffer == o.buffer
        &&& self.bg_color == o.bg_color
        &&& self.ssaa == o.ssaa
        &&& self.size_x_supersized == o.size_x_supersized
        &&& self.size_y_supersized == o.size_y_supersized
        &&& self.size_x_supersized_half == o.size_x_supersized_half
        &&& self.size_y_supersized_half == o.size_y_supersized_half
    }

    /// This canvas is `o` switched to level `s`: well formed at `s`, with the
    /// same display size, display buffer and background, and freshly
    /// cleared supersized buffers.
    pub open spec fn switched_from(&self, o: &Canvas, s: SSAA) -> bool {
        &&& self.wf()
        &&& self.ssaa == s
        &&& self.size_x == o.size_x
        &&& self.size_y == o.size_y
        &&& self.buffer == o.buffer
        &&& self.bg_color == o.bg_color
        &&& forall|i: int| 0 <= i < self.buffer_supersized@.len()
            ==> self.buffer_supersized@[i] == self.bg_color_packed()
        &&& self.is_depth_cleared()
    }

    /// Whether both colour buffers hold only the background pixel.
    pub open spec fn is_cleared(&self) -> bool {
        &&& forall|i: int| 0 <= i < self.buffer@.len() ==> self.buffer@[i] == self.bg_color_packed()
        &&& forall|i: int| 0 <= i < self.buffer_supersized@.len() ==> self.buffer_supersized@[i] == self.bg_color_packed()
    }

    /// Whether every depth cell is empty.
    pub open spec fn is_depth_cleared(&self) -> bool {
        forall|i: int| 0 <= i < self.z_buffer_supersized@.len() ==> self.z_buffer_supersized@[i] == DEPTH_FAR
    }

    /// The packed background pixel.
    pub open spec fn bg_color_packed(&self) -> u32 {
        packed(self.bg_color.r as int, self.bg_color.g as int, self.bg_color.b as int) as u32
    }

    /// A cleared canvas of `size_x` by `size_y` display pixels at level
    /// `ssaa`; fails when an upscaling level does not divide the size.
    pub fn new(size_x: usize, size_y: usize, bg_color: Color, ssaa: SSAA) -> (r: Result<Canvas, CanvasError>)
        requires
            size_in_range(size_x as int, size_y as int),
        ensures
            r is Ok <==> size_fits_level(ssaa, size_x as int, size_y as int),
            r matches Ok(c) ==> {
                &&& c.wf()
                &&& c.size_x == size_x
                &&& c.size_y == size_y
                &&& c.bg_color == bg_color
                &&& c.ssaa == ssaa
                &&& c.is_cleared()
                &&& c.is_depth_cleared()
            },
            r matches Err(e) ==> e == CanvasError::SizeNotDivisible,
    {
        match calc_ssaa_variables(&ssaa, size_x, size_y, &bg_color) {
            Err(e) => Err(e),
            Ok((sx, sy, hx, hy, buffer_supersized, z_buffer_supersized)) => {
                proof {
                    lemma_supersized_bounds(ssaa, size_x as int, size_y as int);
                }
                let bg = bg_color.as_u32();
                Ok(Canvas {
                    size_x,
                    size_y,
                    buffer: filled(bg, size_x * size_y),
                    buffer_supersized,
                    z_buffer_supersized,
                    bg_color,
                    ssaa,
                    size_x_supersized: sx,
                    size_y_supersized: sy,
                    size_x_supersized_half: hx,
                    size_y_supersized_half: hy,
                })
            },
        }
    }

    /// Switches to level `ssaa`, with fresh supersized buffers; fails and
    /// changes nothing when an upscaling level does not divide the size.
    pub fn set_ssaa(&mut self, ssaa: SSAA) -> (r: Result<(), CanvasError>)
        requires
            old(self).wf(),
        ensures
            r is Ok <==> size_fits_level(ssaa, old(self).size_x as int, old(self).size_y as int),
            r matches Err(e) ==> e == CanvasError::SizeNotDivisible && *final(self) == *old(self),
            r is Ok ==> final(self).switched_from(old(self), ssaa),
    {
        match calc_ssaa_variables(&ssaa, self.size_x, self.size_y, &self.bg_color) {
            Err(e) => Err(e),
            Ok((sx, sy, hx, hy, buffer_supersized, z_buffer_supersized)) => {
                self.ssaa = ssaa;
                self.size_x_supersized = sx;
                self.size_y_supersized = sy;
                self.size_x_supersized_half = hx;
                self.size_y_supersized_half = hy;
                self.buffer_supersized = buffer_supersized;
                self.z_buffer_supersized = z_buffer_supersized;
                Ok(())
            },
        }
    }

    /// The supersized sizes and the buffer lengths fit in `usize`.
    pub proof fn lemma_bounds(&self)
        requires
            self.wf(),
        ensures
            self.size_x_supersized * self.size_y_supersized <= usize::MAX,
            self.size_y_supersized * self.size_x_supersized <= usize::MAX,
            self.size_x * self.size_y <= usize::MAX,
    {
        lemma_supersized_bounds(self.ssaa, self.size_x as int, self.size_y as int);
    }

    /// Moves one level finer, as `set_ssaa` would; at the finest level
    /// nothing changes.
    pub fn increase_ssaa(&mut self) -> (r: Result<(), CanvasError>)
        requires
            old(self).wf(),
        ensures
            final(self).wf(),
            spec_finer(old(self).ssaa) is None ==> r is Ok && *final(self) == *old(self),
            spec_finer(old(self).ssaa) matches Some(s) ==> {
                &&& (r is Ok <==> size_fits_level(s, old(self).size_x as int, old(self).size_y as int))
                &&& (r is Ok ==> final(self).switched_from(old(self), s))
                &&& (r is Err ==> *final(self) == *old(self))
            },
    {
        match self.ssaa {
            SSAA::X0_125 => self.set_ssaa(SSAA::X0_25),
            SSAA::X0_25 => self.set_ssaa(SSAA::X1),
            SSAA::X1 => self.set_ssaa(SSAA::X4),
            SSAA::X4 => self.set_ssaa(SSAA::X16),
            SSAA::X16 => self.set_ssaa(SSAA::X64),
            SSAA::X64 => Ok(()),
        }
    }

    /// Moves one level coarser, as `set_ssaa` would; at the coarsest level
    /// nothing changes.
    pub fn decrease_ssaa(&mut self) -> (r: Result<(), CanvasError>)
        requires
            old(self).wf(),
        ensures
            final(self).wf(),
            spec_coarser(old(self).ssaa) is None ==> r is Ok && *final(self) == *old(self),
            spec_coarser(old(self).ssaa) matches Some(s) ==> {
                &&& (r is Ok <==> size_fits_level(s, old(self).size_x as int, old(self).size_y as int))
                &&& (r is Ok ==> final(self).switched_from(old(self), s))
                &&& (r is Err ==> *final(self) == *old(self))
            },
    {
        match self.ssaa {
            SSAA::X0_125 => Ok(()),
            SSAA::X0_25 => self.set_ssaa(SSAA::X0_125),
            SSAA::X1 => self.set_ssaa(SSAA::X0_25),
            SSAA::X4 => self.set_ssaa(SSAA::X1),
            SSAA::X16 => self.set_ssaa(SSAA::X4),
            SSAA::X64 => self.set_ssaa(SSAA::X16),
        }
    }

    /// Fills both colour buffers with the background pixel.
    pub fn reset(&mut self)
        requires
            old(self).wf(),
        ensures
            final(self).wf(),
            final(self).is_cleared(),
            final(self).z_buffer_supersized == old(self).z_buffer_supersized,
            final(self).size_x == old(self).size_x,
            final(self).size_y == old(self).size_y,
            final(self).bg_color == old(self).bg_color,
            final(self).ssaa == old(self).ssaa,
    {
        let bg = self.bg_color.as_u32();
        fill_all(&mut self.buffer, bg);
        fill_all(&mut self.buffer_supersized, bg);
    }

    /// Empties every depth cell.
    pub fn reset_z_buffer(&mut self)
        requires
            old(self).wf(),
        ensures
            final(self).wf(),
            final(self).is_depth_cleared(),
            final(self).same_layout(old(self)),
            final(self).buffer_supersized == old(self).buffer_supersized,
    {
        fill_all(&mut self.z_buffer_supersized, DEPTH_FAR);
    }

    /// Whether `(x, y)` lies inside the supersized buffer.
    pub fn integer_coords_in_canvas(&self, x: i32, y: i32) -> (r: bool)
        ensures
            r == self.spec_in_canvas(x as int, y as int),
    {
        x >= 0 && (x as usize) < self.size_x_supersized && y >= 0 && (y as usize) < self.size_y_supersized
    }

    /// The buffer cell of supersized pixel `(x, y)`; `y` counts from the
    /// bottom of the image while buffer rows count from the top.
    pub fn to_buffer_index(&self, x: i32, y: i32) -> (i: usize)
        requires
            self.wf(),
            self.spec_in_canvas(x as int, y as int),
        ensures
            i == self.spec_buffer_index(x as int, y as int),
            i < self.buffer_supersized@.len(),
    {
        let row = self.size_y_supersized - 1 - y as usize;
        proof {
            lemma_grid_index(
                row as int,
                x as int,
                self.size_y_supersized as int,
                self.size_x_supersized as int,
            );
            self.lemma_bounds();
        }
        row * self.size_x_supersized + x as usize
    }

    /// Lays `color` over the supersized pixel `(x, y)`; a pixel outside the
    /// canvas is ignored.
    pub fn set_pixel(&mut self, coords: (i32, i32), color: &Color)
        requires
            old(self).wf(),
        ensures
            final(self).wf(),
            final(self).same_layout(old(self)),
            final(self).z_buffer_supersized == old(self).z_buffer_supersized,
            ({
                let (x, y) = coords;
                if old(self).spec_in_canvas(x as int, y as int) {
                    let i = old(self).spec_buffer_index(x as int, y as int);
                    final(self).buffer_supersized@ == old(self).buffer_supersized@.update(
                        i,
                        blended_pixel(old(self).buffer_supersized@[i], *color) as u32,
                    )
                } else {
                    final(self).buffer_supersized == old(self).buffer_supersized
                }
            }),
    {
        if self.integer_coords_in_canvas(coords.0, coords.1) {
            let i = self.to_buffer_index(coords.0, coords.1);
            let under = Color::from_u32(self.buffer_supersized[i]);
            let over = alpha_blend(&under, color);
            self.buffer_supersized[i] = over.as_u32();
        }
    }

    /// Lays `color` over the supersized pixel `(x, y)` when `z` is strictly
    /// nearer than the depth stored there, and stores `z`; a pixel outside
    /// the canvas is ignored.
    pub fn set_pixel_with_z(&mut self, coords: (i32, i32), z: i64, color: &Color)
        requires
            old(self).wf(),
        ensures
            final(self).wf(),
            final(self).same_layout(old(self)),
            ({
                let (x, y) = coords;
                if old(self).spec_in_canvas(x as int, y as int) {
                    (final(self).buffer_supersized@, final(self).z_buffer_supersized@) == z_write(
                        old(self).buffer_supersized@,
                        old(self).z_buffer_supersized@,
                        old(self).spec_buffer_index(x as int, y as int),
                        z,
                        *color,
                    )
                } else {
                    &&& final(self).buffer_supersized == old(self).buffer_supersized
                    &&& final(self).z_buffer_supersized == old(self).z_buffer_supersized
                }
            }),
    {
        if self.integer_coords_in_canvas(coords.0, coords.1) {
            let i = self.to_buffer_index(coords.0, coords.1);
            if z < self.z_buffer_supersized[i] {
                self.set_pixel(coords, color);
                self.z_buffer_supersized[i] = z;
            }
        }
    }

    /// Resolves the supersized buffer into the display buffer: a box filter
    /// over each display pixel's block when supersampling, and a copy of the
    /// covering supersized pixel when upscaling. Display cell `j` is pixel
    /// `(j % size_x, j / size_x)`.
    pub fn apply_ssaa(&mut self)
        requires
            old(self).wf(),
        ensures
            final(self).wf(),
            final(self).buffer@.len() == old(self).buffer@.len(),
            forall|j: int| 0 <= j < final(self).buffer@.len() ==> final(self).buffer@[j] == resolved_pixel(
                old(self).ssaa,
                old(self).buffer_supersized@,
                old(self).size_x_supersized as int,
                j % old(self).size_x as int,
                j / old(self).size_x as int,
            ),
            final(self).buffer_supersized == old(self).buffer_supersized,
            final(self).z_buffer_supersized == old(self).z_buffer_supersized,
            final(self).size_x == old(self).size_x,
            final(self).size_y == old(self).size_y,
            final(self).bg_color == old(self).bg_color,
            final(self).ssaa == old(self).ssaa,
    {
        proof {
            self.lemma_bounds();
        }
        let m = self.ssaa.magnification();
        let d = self.ssaa.reduction();
        let sx = self.size_x;
        let n = self.size_x * self.size_y;
        let mut j: usize = 0;
        while j < n
            invariant
                self.wf(),
                old(self).wf(),
                0 <= j <= n,
                n == self.size_x * self.size_y,
                sx == self.size_x,
                m == spec_magnification(self.ssaa),
                d == spec_reduction(self.ssaa),
                self.buffer@.len() == old(self).buffer@.len(),
                self.buffer_supersized == old(self).buffer_supersized,
                self.z_buffer_supersized == old(self).z_buffer_supersized,
                self.size_x == old(self).size_x,
                self.size_y == old(self).size_y,
                self.bg_color == old(self).bg_color,
                self.ssaa == old(self).ssaa,
                self.size_x_supersized == old(self).size_x_supersized,
                self.size_y_supersized == old(self).size_y_supersized,
                self.size_x_supersized_half == old(self).size_x_supersized_half,
                self.size_y_supersized_half == old(self).size_y_supersized_half,
                forall|k: int| 0 <= k < j ==> self.buffer@[k] == resolved_pixel(
                    old(self).ssaa,
                    old(self).buffer_supersized@,
                    old(self).size_x_supersized as int,
                    k % old(self).size_x as int,
                    k / old(self).size_x as int,
                ),
            decreases n - j,
        {
            proof {
                lemma_cell_of_grid(j as int, sx as int, self.size_y as int);
            }
            let x = j % sx;
            let y = j / sx;
            let v = if d > 1 {
                proof {
                    assert(m == 1);
                    assert(self.size_x * m == self.size_x && self.size_y * m == self.size_y) by (nonlinear_arith)
                        requires m == 1;
                    assert(self.size_x_supersized == self.size_x / d);
                    assert(self.size_y_supersized == self.size_y / d);
                    self.lemma_bounds();
                    lemma_div_below(y as int, self.size_y as int, d as int);
                    lemma_div_below(x as int, sx as int, d as int);
                    lemma_grid_index(
                        (y / d) as int,
                        (x / d) as int,
                        self.size_y_supersized as int,
                        self.size_x_supersized as int,
                    );
                }
                self.buffer_supersized[(y / d) * self.size_x_supersized + x / d]
            } else {
                proof {
                    self.lemma_bounds();
                    assert(d == 1);
                    assert(m * x + m <= m * sx && m * y + m <= m * self.size_y) by (nonlinear_arith)
                        requires x < sx, y < self.size_y, m >= 1;
                    let (ix, iy, im, id) = (sx as int, self.size_y as int, m as int, d as int);
                    assert(ix * im / id == im * ix && iy * im / id == im * iy) by (nonlinear_arith)
                        requires id == 1;
                }
                box_filter(&self.buffer_supersized, self.size_x_supersized, self.size_y_supersized, m, x, y)
            };
            self.buffer[j] = v;
            j += 1;
        }
    }
}

/// Cell `j` of a `h`-row grid of width `w` sits in column `j % w` and row `j / w`.
proof fn lemma_cell_of_grid(j: int, w: int, h: int)
    requires
        0 <= j < w * h,
        0 <= w,
        0 <= h,
    ensures
        w > 0,
        0 <= j % w < w,
        0 <= j / w < h,
{
    assert(w > 0) by (nonlinear_arith)
        requires 0 <= j < w * h, 0 <= w, 0 <= h;
    assert(j / w < h) by (nonlinear_arith)
        requires 0 <= j < w * h, w > 0;
}

/// A quotient by `d` of a value below a multiple `n` of `d` stays below `n / d`.
proof fn lemma_div_below(y: int, n: int, d: int)
    requires
        0 <= y < n,
        d > 0,
        n % d == 0,
    ensures
        0 <= y / d < n / d,
{
    assert(y / d < n / d) by (nonlinear_arith)
        requires 0 <= y < n, d > 0, n % d == 0;
}

/// Cell `j` of an `m`-by-`m` block at `(x0, y0)` lies inside a buffer of
/// width `w` that holds the block.
proof fn lemma_block_cell(j: int, m: int, w: int, x0: int, y0: int)
    requires
        0 <= j < m * m,
        0 <= m,
        0 <= x0,
        x0 + m <= w,
        0 <= y0,
    ensures
        m > 0,
        0 <= j / m < m,
        0 <= j % m < m,
        0 <= (y0 + j / m) * w + x0 + j % m < (y0 + m) * w,
{
    assert(m > 0) by (nonlinear_arith)
        requires 0 <= j < m * m, 0 <= m;
    assert(j / m < m) by (nonlinear_arith)
        requires 0 <= j < m * m, m > 0;
    lemma_grid_index(y0 + j / m, x0 + j % m, y0 + m, w);
}

/// The box-filtered display pixel `(x, y)` of a supersized buffer `buf` of
/// width `w` and height `h`, with blocks of `m` by `m`.
fn box_filter(buf: &Vec<u32>, w: usize, h: usize, m: usize, x: usize, y: usize) -> (p: u32)
    requires
        buf@.len() == w * h,
        w * h <= usize::MAX,
        1 <= m <= 8,
        m * x + m <= w,
        m * y + m <= h,
    ensures
        p == box_pixel(buf@, w as int, m as int, x as int, y as int),
{
    proof {
        assert(m * m <= 64) by (nonlinear_arith)
            requires 1 <= m <= 8;
    }
    let n = m * m;
    let x0 = m * x;
    let y0 = m * y;
    let mut sr: u32 = 0;
    let mut sg: u32 = 0;
    let mut sb: u32 = 0;
    let mut k: usize = 0;
    while k < n
        invariant
            0 <= k <= n,
            n == m * m,
            n <= 64,
            1 <= m <= 8,
            x0 == m * x,
            y0 == m * y,
            x0 + m <= w,
            y0 + m <= h,
            buf@.len() == w * h,
            w * h <= usize::MAX,
            sr == block_sum(buf@, w as int, x0 as int, y0 as int, m as int, 0, k as nat),
            sg == block_sum(buf@, w as int, x0 as int, y0 as int, m as int, 1, k as nat),
            sb == block_sum(buf@, w as int, x0 as int, y0 as int, m as int, 2, k as nat),
            sr <= 255 * k,
            sg <= 255 * k,
            sb <= 255 * k,
        decreases n - k,
    {
        proof {
            lemma_block_cell(k as int, m as int, w as int, x0 as int, y0 as int);
            assert((y0 + m) * w <= h * w) by (nonlinear_arith)
                requires y0 + m <= h, w >= 0;
        }
        let yy = y0 + k / m;
        let xx = x0 + k % m;
        proof {
            assert(yy * w + xx < h * w);
            assert(h * w == w * h) by (nonlinear_arith);
            assert(yy * w + xx < usize::MAX);
        }
        let (r, g, b) = rgb_u8_from_u32(buf[yy * w + xx]);
        sr = sr + r as u32;
        sg = sg + g as u32;
        sb = sb + b as u32;
        k = k + 1;
    }
    proof {
        assert(1 <= n <= 64) by (nonlinear_arith)
            requires n == m * m, 1 <= m <= 8;
    }
    let cells = n as u32;
    proof {
        assert(sr / cells <= 255 && sg / cells <= 255 && sb / cells <= 255) by (nonlinear_arith)
            requires sr <= 255 * cells, sg <= 255 * cells, sb <= 255 * cells, cells >= 1;
    }
    rgb_u8_to_u32((sr / cells) as u8, (sg / cells) as u8, (sb / cells) as u8)
}

/// Two depth-tested writes to one cell, the nearer of them opaque, leave the
/// same buffers in either order, and the cell shows the nearer colour when it
/// was nearer than what the cell held.
pub proof fn lemma_z_order_independent(
    buf: Seq<u32>,
    zs: Seq<i64>,
    i: int,
    z_near: i64,
    c_near: Color,
    z_far: i64,
    c_far: Color,
)
    requires
        0 <= i < buf.len(),
        buf.len() == zs.len(),
        z_near < z_far,
        c_near.a == CHANNEL_MAX,
    ensures
        ({
            let (b1, s1) = z_write(buf, zs, i, z_near, c_near);
            let (b2, s2) = z_write(buf, zs, i, z_far, c_far);
            let near_first = z_write(b1, s1, i, z_far, c_far);
            let far_first = z_write(b2, s2, i, z_near, c_near);
            &&& near_first == far_first
            &&& z_near < zs[i] ==> near_first.0[i] == packed(c_near.r as int, c_near.g as int, c_near.b as int)
        }),
{
    let (b1, s1) = z_write(buf, zs, i, z_near, c_near);
    let (b2, s2) = z_write(buf, zs, i, z_far, c_far);
    let near_first = z_write(b1, s1, i, z_far, c_far);
    let far_first = z_write(b2, s2, i, z_near, c_near);
    lemma_opaque_blend(buf[i], c_near);
    lemma_opaque_blend(b2[i], c_near);
    if z_near < zs[i] {
        assert(near_first.0 =~= far_first.0);
        assert(near_first.1 =~= far_first.1);
    }
}

/// An opaque colour replaces the pixel under it.
pub proof fn lemma_opaque_blend(p: u32, c: Color)
    requires
        c.a == CHANNEL_MAX,
    ensures
        blended_pixel(p, c) == packed(c.r as int, c.g as int, c.b as int),
{
    assert(blend_channel(red_of(p), c.r as int, 255) == c.r);
    assert(blend_channel(green_of(p), c.g as int, 255) == c.g);
    assert(blend_channel(blue_of(p), c.b as int, 255) == c.b);
}

/// Every cell sum of channel `ch` over a block whose cells all hold `p` is
/// `k` times that channel of `p`.
proof fn lemma_block_sum_uniform(buf: Seq<u32>, w: int, x0: int, y0: int, m: int, ch: int, k: nat, p: u32)
    requires
        k <= m * m,
        0 <= m,
        0 <= x0,
        x0 + m <= w,
        0 <= y0,
        (y0 + m) * w <= buf.len(),
        forall|i: int| 0 <= i < buf.len() ==> buf[i] == p,
    ensures
        block_sum(buf, w, x0, y0, m, ch, k) == k * channel_of(p, ch),
    decreases k,
{
    if k > 0 {
        let j = k - 1;
        lemma_block_sum_uniform(buf, w, x0, y0, m, ch, j as nat, p);
        lemma_block_cell(j, m, w, x0, y0);
        let c = channel_of(p, ch);
        assert(buf[(y0 + j / m) * w + x0 + j % m] == p);
        assert(j * c + c == k * c) by (nonlinear_arith)
            requires j == k - 1;
        assert(block_sum(buf, w, x0, y0, m, ch, k) == block_sum(buf, w, x0, y0, m, ch, j as nat) + c);
    } else {
        assert(k * channel_of(p, ch) == 0) by (nonlinear_arith)
            requires k == 0;
    }
}

/// Supersampling a canvas whose supersized pixels all hold one colour `p`
/// resolves every display pixel to `p`: a box filter of a constant is that
/// constant.
pub proof fn lemma_ssaa_identity(c: Canvas, p: u32)
    requires
        c.wf(),
        spec_reduction(c.ssaa) == 1,
        p < 0x100_0000,
        forall|i: int| 0 <= i < c.buffer_supersized@.len() ==> c.buffer_supersized@[i] == p,
    ensures
        forall|x: int, y: int|
            0 <= x < c.size_x && 0 <= y < c.size_y ==> #[trigger] resolved_pixel(
                c.ssaa,
                c.buffer_supersized@,
                c.size_x_supersized as int,
                x,
                y,
            ) == p,
{
    assert forall|x: int, y: int| 0 <= x < c.size_x && 0 <= y < c.size_y implies #[trigger] resolved_pixel(
        c.ssaa,
        c.buffer_supersized@,
        c.size_x_supersized as int,
        x,
        y,
    ) == p by {
        let sx = c.size_x as int;
        let sy = c.size_y as int;
        let m = spec_magnification(c.ssaa);
        let w = c.size_x_supersized as int;
        assert(w == m * sx && c.size_y_supersized == m * sy) by (nonlinear_arith)
            requires w == sx * m / 1, c.size_y_supersized == sy * m / 1;
        assert(m * x + m <= w && (m * y + m) * w <= c.buffer_supersized@.len()) by (nonlinear_arith)
            requires
                0 <= x < sx,
                0 <= y < sy,
                1 <= m,
                w == m * sx,
                c.buffer_supersized@.len() == w * (m * sy);
        assert(m * x >= 0 && m * y >= 0) by (nonlinear_arith)
            requires 0 <= x, 0 <= y, 1 <= m;
        let n = (m * m) as nat;
        assert(m * m >= 1) by (nonlinear_arith)
            requires 1 <= m;
        lemma_block_sum_uniform(c.buffer_supersized@, w, m * x, m * y, m, 0, n, p);
        lemma_block_sum_uniform(c.buffer_supersized@, w, m * x, m * y, m, 1, n, p);
        lemma_block_sum_uniform(c.buffer_supersized@, w, m * x, m * y, m, 2, n, p);
        let r = red_of(p);
        let g = green_of(p);
        let b = blue_of(p);
        assert((n * r) / (n as int) == r && (n * g) / (n as int) == g && (n * b) / (n as int) == b) by (nonlinear_arith)
            requires n >= 1;
        lemma_channels_packed(p);
    }
}

impl Canvas {
    /// Whether every vertex of `pts` lies inside the supersized buffer.
    pub open spec fn polygon_in_canvas(&self, pts: Seq<IntegerVector2d>) -> bool {
        forall|i: int| 0 <= i < pts.len() ==> self.spec_in_canvas(#[trigger] pts[i].x as int, pts[i].y as int)
    }

    /// Starts the scanline fill of the closed polygon `points` on this
    /// canvas. A polygon of fewer than three vertices, or with a vertex
    /// outside the supersized buffer, is dropped whole: its fill is already
    /// over and yields no span.
    pub fn begin_polygon(&self, points: &Vec<IntegerVector2d>) -> (f: ScanlineFill)
        requires
            self.wf(),
        ensures
            f.wf(),
            points@.len() >= 3 && self.polygon_in_canvas(points@) ==> fill_started(f, points@),
            !(points@.len() >= 3 && self.polygon_in_canvas(points@)) ==> f.edge_table.list@.len() == 0
                && f.y_scan == f.y_end,
    {
        let n = points.len();
        let mut inside = n >= 3;
        let mut i: usize = 0;
        while i < n
            invariant
                0 <= i <= n,
                n == points@.len(),
                inside == (n >= 3 && forall|j: int| 0 <= j < i ==> self.spec_in_canvas(
                    #[trigger] points@[j].x as int,
                    points@[j].y as int,
                )),
            decreases n - i,
        {
            let p = points[i];
            if !self.integer_coords_in_canvas(p.x, p.y) {
                inside = false;
            }
            i = i + 1;
        }
        if inside {
            ScanlineFill::new(points)
        } else {
            ScanlineFill::new(&Vec::new())
        }
    }
}

/// The display pixel at cell `j` of a canvas `size_x` wide, after laying a
/// layer `lx` by `ly` with pixels `layer` at `(pos_x, pos_y)` over `under`.
pub open spec fn layered_pixel(
    under: Seq<u32>,
    size_x: int,
    layer: Seq<u32>,
    lx: int,
    ly: int,
    pos_x: int,
    pos_y: int,
    j: int,
) -> u32 {
    let x = j % size_x;
    let y = j / size_x;
    if pos_x <= x < pos_x + lx && pos_y <= y < pos_y + ly {
        layer[(y - pos_y) * lx + (x - pos_x)]
    } else {
        under[j]
    }
}

impl Canvas {
    /// Copies `layer`'s display buffer into this one with its top-left
    /// corner at `(pos_x, pos_y)`; the layer must fit inside.
    pub fn add_layer(&mut self, layer: Canvas, pos_x: u32, pos_y: u32)
        requires
            old(self).wf(),
            layer.wf(),
            pos_x + layer.size_x <= old(self).size_x,
            pos_y + layer.size_y <= old(self).size_y,
        ensures
            final(self).wf(),
            final(self).same_layout_but_buffer(old(self)),
            final(self).buffer@.len() == old(self).buffer@.len(),
            forall|j: int| 0 <= j < final(self).buffer@.len() ==> #[trigger] final(self).buffer@[j] == layered_pixel(
                old(self).buffer@,
                old(self).size_x as int,
                layer.buffer@,
                layer.size_x as int,
                layer.size_y as int,
                pos_x as int,
                pos_y as int,
                j,
            ),
    {
        proof {
            self.lemma_bounds();
        }
        let sx = self.size_x;
        let n = self.size_x * self.size_y;
        let px = pos_x as usize;
        let py = pos_y as usize;
        let mut j: usize = 0;
        while j < n
            invariant
                0 <= j <= n,
                n == self.size_x * self.size_y,
                sx == self.size_x,
                px == pos_x,
                py == pos_y,
                layer.wf(),
                px + layer.size_x <= sx,
                py + layer.size_y <= self.size_y,
                self.wf(),
                self.same_layout_but_buffer(old(self)),
                self.buffer@.len() == old(self).buffer@.len(),
                forall|k: int| j <= k < n ==> self.buffer@[k] == old(self).buffer@[k],
                forall|k: int| 0 <= k < j ==> #[trigger] self.buffer@[k] == layered_pixel(
                    old(self).buffer@,
                    sx as int,
                    layer.buffer@,
                    layer.size_x as int,
                    layer.size_y as int,
                    pos_x as int,
                    pos_y as int,
                    k,
                ),
            decreases n - j,
        {
            proof {
                lemma_cell_of_grid(j as int, sx as int, self.size_y as int);
            }
            let x = j % sx;
            let y = j / sx;
            if px <= x && x < px + layer.size_x && py <= y && y < py + layer.size_y {
                proof {
                    lemma_grid_index((y - py) as int, (x - px) as int, layer.size_y as int, layer.size_x as int);
                    layer.lemma_bounds();
                }
                let v = layer.buffer[(y - py) * layer.size_x + (x - px)];
                self.buffer[j] = v;
            }
            j = j + 1;
        }
    }

    /// Every field but the display buffer is as in `o`.
    pub open spec fn same_layout_but_buffer(&self, o: &Canvas) -> bool {
        &&& self.size_x == o.size_x
        &&& self.size_y == o.size_y
        &&& self.buffer_supersized == o.buffer_supersized
        &&& self.z_buffer_supersized == o.z_buffer_supersized
        &&& self.bg_color == o.bg_color
        &&& self.ssaa == o.ssaa
        &&& self.size_x_supersized == o.size_x_supersized
        &&& self.size_y_supersized == o.size_y_supersized
        &&& self.size_x_supersized_half == o.size_x_supersized_half
        &&& self.size_y_supersized_half == o.size_y_supersized_half
    }
}

} // verus!
