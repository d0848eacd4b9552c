//! Anti-aliased disks on an RGBA canvas.
//!
//! A disk lies on a fixed-point grid of [`UNIT`] steps per pixel. How much of a
//! pixel it covers follows from the distance between the pixel's centre and the
//! disk's rim, so edges come out anti-aliased.

use vstd::prelude::*;

verus! {

/// Fixed-point steps in one pixel.
pub const UNIT: i64 = 3_840_000;

/// The largest coordinate or radius of a disk, in steps.
pub const REACH: i64 = 0x10_0000_0000_0000;

/// A filled disk; all three measures are in fixed-point steps.
#[derive(Clone, Copy, Debug, PartialEq, Eq)]
pub struct Disk {
    pub cx: i64,
    pub cy: i64,
    pub radius: i64,
}

impl Disk {
    /// The disk's measures are small enough to compute with.
    pub open spec fn in_range(self) -> bool {
        &&& -REACH <= self.cx <= REACH
        &&& -REACH <= self.cy <= REACH
        &&& -REACH <= self.radius <= REACH
    }
}

/// Squared distance between the disk's centre and the centre of pixel
/// `(px, py)`, in squared steps.
pub open spec fn distance_squared(disk: Disk, px: int, py: int) -> int {
    let dx = px * UNIT + UNIT / 2 - disk.cx;
    let dy = py * UNIT + UNIT / 2 - disk.cy;
    dx * dx + dy * dy
}

/// The disk covers at least `level` 255ths of pixel `(px, py)`: the pixel's
/// centre lies at least `level / 255` of a pixel inside the circle that is
/// half a pixel larger than the disk, that is
/// `level / 255 <= radius + 1/2 - distance`.
pub open spec fn reaches(disk: Disk, px: int, py: int, level: int) -> bool {
    let depth = 255 * (disk.radius + UNIT / 2) - level * UNIT;
    &&& 0 <= depth
    &&& 65025 * distance_squared(disk, px, py) <= depth * depth
}

/// The greatest level up to `limit` that the disk reaches, 0 if it reaches none.
pub open spec fn coverage_up_to(disk: Disk, px: int, py: int, limit: nat) -> nat
    decreases limit,
{
    if limit == 0 || reaches(disk, px, py, limit as int) {
        limit
    } else {
        coverage_up_to(disk, px, py, (limit - 1) as nat)
    }
}

/// The share of pixel `(px, py)` that the disk covers, in 255ths.
pub open spec fn coverage(disk: Disk, px: int, py: int) -> nat {
    coverage_up_to(disk, px, py, 255)
}

proof fn lemma_reaches_antitone(disk: Disk, px: int, py: int, low: int, high: int)
    requires
        low <= high,
        reaches(disk, px, py, high),
    ensures
        reaches(disk, px, py, low),
{
    let a = 255 * (disk.radius + UNIT / 2) - high * UNIT;
    let b = 255 * (disk.radius + UNIT / 2) - low * UNIT;
    assert(0 <= a <= b);
    assert(a * a <= b * b) by (nonlinear_arith)
        requires
            0 <= a <= b,
    ;
}

/// A level that is reached, next to one that is not, is the coverage.
proof fn lemma_coverage_between(disk: Disk, px: int, py: int, low: nat, limit: nat)
    requires
        low <= limit,
        low == 0 || reaches(disk, px, py, low as int),
        low == limit || !reaches(disk, px, py, low as int + 1),
    ensures
        coverage_up_to(disk, px, py, limit) == low,
    decreases limit,
{
    if low < limit {
        if reaches(disk, px, py, limit as int) {
            lemma_reaches_antitone(disk, px, py, low as int + 1, limit as int);
        }
        lemma_coverage_between(disk, px, py, low, (limit - 1) as nat);
    }
}

proof fn lemma_coverage_bounds(disk: Disk, px: int, py: int, limit: nat)
    ensures
        coverage_up_to(disk, px, py, limit) <= limit,
        coverage_up_to(disk, px, py, limit) > 0 ==> reaches(
            disk,
            px,
            py,
            coverage_up_to(disk, px, py, limit) as int,
        ),
    decreases limit,
{
    if limit > 0 && !reaches(disk, px, py, limit as int) {
        lemma_coverage_bounds(disk, px, py, (limit - 1) as nat);
    }
}

/// Coverage is a share of 255.
pub proof fn lemma_coverage_at_most(disk: Disk, px: int, py: int)
    ensures
        coverage(disk, px, py) <= 255,
{
    lemma_coverage_bounds(disk, px, py, 255);
}

/// A pixel that is further than the disk's radius and half a pixel away from
/// its centre along one axis is not covered.
proof fn lemma_outside(disk: Disk, px: int, py: int)
    requires
        ({
            let dx = px * UNIT + UNIT / 2 - disk.cx;
            let dy = py * UNIT + UNIT / 2 - disk.cy;
            let rim = disk.radius + UNIT / 2;
            dx > rim || -dx > rim || dy > rim || -dy > rim
        }),
    ensures
        coverage(disk, px, py) == 0,
{
    let level = coverage(disk, px, py);
    lemma_coverage_bounds(disk, px, py, 255);
    if level > 0 {
        let dx = px * UNIT + UNIT / 2 - disk.cx;
        let dy = py * UNIT + UNIT / 2 - disk.cy;
        let rim = disk.radius + UNIT / 2;
        let depth = 255 * rim - level * UNIT;
        assert(reaches(disk, px, py, level as int));
        assert(0 <= depth <= 255 * rim);
        assert(depth * depth <= 65025 * (rim * rim)) by (nonlinear_arith)
            requires
                0 <= depth <= 255 * rim,
        ;
        assert(dx * dx + dy * dy > rim * rim) by (nonlinear_arith)
            requires
                dx > rim || -dx > rim || dy > rim || -dy > rim,
                0 <= rim,
        ;
        assert(false);
    }
}

/// Whether `disk` reaches `level` on pixel `(px, py)`.
fn reaches_level(disk: Disk, px: u32, py: u32, level: u32) -> (reached: bool)
    requires
        disk.in_range(),
        px <= 0x4000_0000,
        py <= 0x4000_0000,
        level <= 256,
    ensures
        reached == reaches(disk, px as int, py as int, level as int),
{
    let depth: i128 = 255 * (disk.radius as i128 + UNIT as i128 / 2) - level as i128 * UNIT as i128;
    let dx: i128 = px as i128 * UNIT as i128 + UNIT as i128 / 2 - disk.cx as i128;
    let dy: i128 = py as i128 * UNIT as i128 + UNIT as i128 / 2 - disk.cy as i128;
    proof {
        let bound: int = 0x20_0000_0000_0000;
        assert(-bound <= dx <= bound && -bound <= dy <= bound);
        assert(0 <= dx * dx <= bound * bound) by (nonlinear_arith)
            requires
                -bound <= dx <= bound,
        ;
        assert(0 <= dy * dy <= bound * bound) by (nonlinear_arith)
            requires
                -bound <= dy <= bound,
        ;
        assert(-256 * bound <= depth <= 256 * bound);
        assert(0 <= depth * depth <= 65536 * (bound * bound)) by (nonlinear_arith)
            requires
                -256 * bound <= depth <= 256 * bound,
        ;
        assert(bound * bound == 0x400_0000_0000_0000_0000_0000_0000int) by (nonlinear_arith)
            requires
                bound == 0x20_0000_0000_0000int,
        ;
    }
    0 <= depth && 65025 * (dx * dx + dy * dy) <= depth * depth
}

/// The share of pixel `(px, py)` that `disk` covers, in 255ths.
fn disk_coverage(disk: Disk, px: u32, py: u32) -> (level: u8)
    requires
        disk.in_range(),
        px <= 0x4000_0000,
        py <= 0x4000_0000,
    ensures
        level == coverage(disk, px as int, py as int),
{
    let mut low: u32 = 0;
    let mut high: u32 = 256;
    while low + 1 < high
        invariant
            disk.in_range(),
            px <= 0x4000_0000,
            py <= 0x4000_0000,
            low < high <= 256,
            low == 0 || reaches(disk, px as int, py as int, low as int),
            high == 256 || !reaches(disk, px as int, py as int, high as int),
        decreases high - low,
    {
        let middle: u32 = low + (high - low) / 2;
        if reaches_level(disk, px, py, middle) {
            low = middle;
        } else {
            high = middle;
        }
    }
    proof {
        lemma_coverage_between(disk, px as int, py as int, low as nat, 255);
    }
    low as u8
}

/// Channel `channel` of the icon's ink at opacity `level`.
pub open spec fn ink(level: nat, channel: int) -> u8 {
    if channel == 0 {
        100
    } else if channel == 1 {
        210
    } else if channel == 2 {
        255
    } else {
        level as u8
    }
}

/// Byte `at` of `canvas` after ink of opacity `level` was laid on its pixel:
/// the stronger of the two stays.
pub open spec fn blended(canvas: Seq<u8>, level: nat, at: int) -> u8 {
    if level > canvas[4 * (at / 4) + 3] {
        ink(level, at % 4)
    } else {
        canvas[at]
    }
}

/// `canvas`, `width` pixels wide, after `disk` was painted on it.
pub open spec fn painted(canvas: Seq<u8>, width: int, disk: Disk) -> Seq<u8> {
    Seq::new(
        canvas.len(),
        |at: int| blended(canvas, coverage(disk, (at / 4) % width, (at / 4) / width), at),
    )
}

/// The pixel that holds `measure`, a position in steps, kept within `0..=limit`.
fn pixel_floor(measure: i64, limit: u32) -> (pixel: u32)
    ensures
        measure <= 0 ==> pixel == 0,
        measure > 0 ==> pixel == if measure as int / UNIT as int > limit {
            limit as int
        } else {
            measure as int / UNIT as int
        },
{
    if measure <= 0 {
        0
    } else {
        let pixel: i64 = measure / UNIT;
        if pixel > limit as i64 {
            limit
        } else {
            pixel as u32
        }
    }
}

/// A pixel in row-major order is found again from its index.
pub proof fn lemma_row_column(width: int, row: int, column: int)
    requires
        0 <= column < width,
        0 <= row,
    ensures
        (row * width + column) % width == column,
        (row * width + column) / width == row,
{
    vstd::arithmetic::div_mod::lemma_fundamental_div_mod_converse(
        row * width + column,
        width,
        row,
        column,
    );
}

/// `canvas` painted up to, and without, the pixel of index `pixel`.
spec fn painted_up_to(
    now: Seq<u8>,
    canvas: Seq<u8>,
    width: int,
    disk: Disk,
    pixel: int,
) -> bool {
    &&& now.len() == canvas.len()
    &&& forall|at: int|
        #![trigger now[at]]
        0 <= at < canvas.len() ==> now[at] == if at / 4 < pixel {
            painted(canvas, width, disk)[at]
        } else {
            canvas[at]
        }
}

/// Painting has nothing to do on rows that the disk does not cover.
proof fn lemma_skip_rows(
    now: Seq<u8>,
    canvas: Seq<u8>,
    width: int,
    disk: Disk,
    from: int,
    to: int,
)
    requires
        0 < width,
        0 <= from <= to,
        painted_up_to(now, canvas, width, disk, from * width),
        forall|px: int, py: int|
            0 <= px < width && from <= py < to ==> #[trigger] coverage(disk, px, py) == 0,
    ensures
        painted_up_to(now, canvas, width, disk, to * width),
{
    assert(from * width <= to * width) by (nonlinear_arith)
        requires
            from <= to,
            0 < width,
    ;
    assert forall|at: int| #![trigger now[at]] 0 <= at < canvas.len() implies now[at] == if at / 4
        < to * width {
        painted(canvas, width, disk)[at]
    } else {
        canvas[at]
    } by {
        let pixel = at / 4;
        let (px, py) = (pixel % width, pixel / width);
        vstd::arithmetic::div_mod::lemma_fundamental_div_mod(pixel, width);
        assert(width * py == py * width) by (nonlinear_arith);
        if from * width <= pixel < to * width {
            assert(from <= py < to) by (nonlinear_arith)
                requires
                    from * width <= pixel < to * width,
                    pixel == py * width + px,
                    0 <= px < width,
            ;
            assert(coverage(disk, px, py) == 0);
        }
    }
}

/// Painting has nothing to do on columns of a row that the disk does not cover.
proof fn lemma_skip_columns(
    now: Seq<u8>,
    canvas: Seq<u8>,
    width: int,
    disk: Disk,
    row: int,
    from: int,
    to: int,
)
    requires
        0 <= row,
        0 <= from <= to <= width,
        0 < width,
        painted_up_to(now, canvas, width, disk, row * width + from),
        forall|px: int| from <= px < to ==> #[trigger] coverage(disk, px, row) == 0,
    ensures
        painted_up_to(now, canvas, width, disk, row * width + to),
{
    assert forall|at: int| #![trigger now[at]] 0 <= at < canvas.len() implies now[at] == if at / 4
        < row * width + to {
        painted(canvas, width, disk)[at]
    } else {
        canvas[at]
    } by {
        let pixel = at / 4;
        if row * width + from <= pixel < row * width + to {
            lemma_row_column(width, row, pixel - row * width);
            assert(coverage(disk, pixel - row * width, row) == 0);
        }
    }
}

/// Lays ink of opacity `level` on the pixel whose bytes start at `4 * pixel`.
fn blend_pixel(rgba: &mut Vec<u8>, pixel: usize, level: u8)
    requires
        4 * pixel + 3 < old(rgba)@.len(),
    ensures
        final(rgba)@ == Seq::new(
            old(rgba)@.len(),
            |at: int|
                if at / 4 == pixel {
                    blended(old(rgba)@, level as nat, at)
                } else {
                    old(rgba)@[at]
                },
        ),
{
    assert(rgba.len() == rgba@.len());
    let i: usize = pixel * 4;
    if level > rgba[i + 3] {
        rgba.set(i, 100);
        rgba.set(i + 1, 210);
        rgba.set(i + 2, 255);
        rgba.set(i + 3, level);
    }
}

/// Paints an anti-aliased filled disk on a canvas of `w` by `h` pixels, four
/// bytes each. Where ink is there already, the stronger of the two stays, so
/// strokes that overlap do not darken one another.
pub fn paint(rgba: &mut Vec<u8>, w: u32, h: u32, disk: Disk)
    requires
        old(rgba)@.len() == 4 * (w * h),
        4 * (w * h) <= u32::MAX,
        disk.in_range(),
    ensures
        final(rgba)@ == painted(old(rgba)@, w as int, disk),
{
    let ghost canvas = rgba@;
    let ghost width = w as int;
    if w == 0 || h == 0 {
        assert(w * h == 0) by (nonlinear_arith)
            requires
                w == 0 || h == 0,
        ;
        assert(rgba@ =~= painted(canvas, width, disk));
        return ;
    }
    assert(w <= 0x4000_0000 && h <= 0x4000_0000) by (nonlinear_arith)
        requires
            0 < w,
            0 < h,
            4 * (w * h) <= u32::MAX,
    ;
    let x0: u32 = pixel_floor(disk.cx - disk.radius - UNIT, w);
    let x1: u32 = pixel_floor(disk.cx + disk.radius + 2 * UNIT, w);
    let y0: u32 = pixel_floor(disk.cy - disk.radius - UNIT, h);
    let y1: u32 = pixel_floor(disk.cy + disk.radius + 2 * UNIT, h);
    proof {
        assert forall|px: int, py: int|
            0 <= px < w && 0 <= py < h && !(x0 <= px < x1 && y0 <= py
                < y1) implies #[trigger] coverage(disk, px, py) == 0 by {
            lemma_outside(disk, px, py);
        }
        lemma_skip_rows(canvas, canvas, width, disk, 0, y0 as int);
    }
    let mut py: u32 = y0;
    while py < y1
        invariant
            0 < w <= 0x4000_0000,
            0 < h <= 0x4000_0000,
            4 * (w * h) <= u32::MAX,
            disk.in_range(),
            width == w,
            canvas.len() == 4 * (w * h),
            x0 <= w,
            x1 <= w,
            y1 <= h,
            y0 <= py <= h,
            y0 <= y1 ==> py <= y1,
            y1 < y0 ==> py == y0,
            forall|px: int, py: int|
                0 <= px < w && 0 <= py < h && !(x0 <= px < x1 && y0 <= py
                    < y1) ==> #[trigger] coverage(disk, px, py) == 0,
            painted_up_to(rgba@, canvas, width, disk, py * width),
        decreases y1 - py,
    {
        proof {
            lemma_skip_columns(rgba@, canvas, width, disk, py as int, 0, x0 as int);
        }
        let mut px: u32 = x0;
        while px < x1
            invariant
                0 < w <= 0x4000_0000,
                0 < h <= 0x4000_0000,
                4 * (w * h) <= u32::MAX,
                disk.in_range(),
                width == w,
                canvas.len() == 4 * (w * h),
                x1 <= w,
                x0 <= px <= w,
                x0 <= x1 ==> px <= x1,
                py < h,
                painted_up_to(rgba@, canvas, width, disk, py * width + px),
            decreases x1 - px,
        {
            let ghost before = rgba@;
            assert(py * w + px < w * h && 0 <= py * w) by (nonlinear_arith)
                requires
                    py < h,
                    px < w,
            ;
            let pixel: u32 = py * w + px;
            let level: u8 = disk_coverage(disk, px, py);
            blend_pixel(rgba, pixel as usize, level);
            proof {
                lemma_row_column(width, py as int, px as int);
                assert(before[4 * pixel + 3] == canvas[4 * pixel + 3]);
                assert forall|at: int|
                    #![trigger rgba@[at]]
                    0 <= at < canvas.len() implies rgba@[at] == if at / 4 < pixel + 1 {
                    painted(canvas, width, disk)[at]
                } else {
                    canvas[at]
                } by {
                    assert(before[at] == before[at]);
                }
            }
            px = px + 1;
        }
        proof {
            lemma_skip_columns(rgba@, canvas, width, disk, py as int, px as int, width);
            assert((py + 1) * width == py * width + width) by (nonlinear_arith);
        }
        py = py + 1;
    }
    proof {
        lemma_skip_rows(rgba@, canvas, width, disk, py as int, h as int);
        assert(h * width == w * h) by (nonlinear_arith)
            requires
                width == w,
        ;
        assert(rgba@ =~= painted(canvas, width, disk));
    }
}

/// Painting a disk a second time changes nothing.
pub proof fn painting_is_idempotent(canvas: Seq<u8>, width: int, disk: Disk)
    requires
        canvas.len() % 4 == 0,
    ensures
        painted(painted(canvas, width, disk), width, disk) == painted(canvas, width, disk),
{
    let once = painted(canvas, width, disk);
    assert forall|at: int| 0 <= at < canvas.len() implies #[trigger] painted(once, width, disk)[at]
        == once[at] by {
        let alpha = 4 * (at / 4) + 3;
        assert(alpha / 4 == at / 4 && alpha % 4 == 3 && alpha < canvas.len());
        lemma_coverage_at_most(disk, (at / 4) % width, (at / 4) / width);
    }
    assert(painted(once, width, disk) =~= once);
}

/// Disks may be painted in any order.
pub proof fn painting_commutes(canvas: Seq<u8>, width: int, first: Disk, second: Disk)
    requires
        canvas.len() % 4 == 0,
    ensures
        painted(painted(canvas, width, first), width, second) == painted(
            painted(canvas, width, second),
            width,
            first,
        ),
{
    let one = painted(canvas, width, first);
    let two = painted(canvas, width, second);
    assert forall|at: int| 0 <= at < canvas.len() implies #[trigger] painted(one, width, second)[at]
        == painted(two, width, first)[at] by {
        let alpha = 4 * (at / 4) + 3;
        assert(alpha / 4 == at / 4 && alpha % 4 == 3 && alpha < canvas.len());
        lemma_coverage_at_most(first, (at / 4) % width, (at / 4) / width);
        lemma_coverage_at_most(second, (at / 4) % width, (at / 4) / width);
    }
    assert(painted(one, width, second) =~= painted(two, width, first));
}

/// Overlapping strokes do not add up: the opacity of a pixel after painting is
/// the greater of what it was and what the disk covers, never more.
pub proof fn painting_keeps_the_stronger(canvas: Seq<u8>, width: int, disk: Disk, pixel: int)
    requires
        0 <= pixel,
        4 * pixel + 3 < canvas.len(),
    ensures
        ({
            let was = canvas[4 * pixel + 3];
            let level = coverage(disk, pixel % width, pixel / width);
            painted(canvas, width, disk)[4 * pixel + 3] == if level > was {
                level as int
            } else {
                was as int
            }
        }),
{
    let alpha = 4 * pixel + 3;
    assert(alpha / 4 == pixel && alpha % 4 == 3);
    lemma_coverage_at_most(disk, pixel % width, pixel / width);
}

/// A disk covers mirrored pixels alike once it is mirrored itself, on a canvas
/// of `width` pixels.
pub proof fn coverage_mirrors(disk: Disk, mirrored: Disk, width: int, px: int, py: int)
    requires
        mirrored.cx == width * UNIT - disk.cx,
        mirrored.cy == disk.cy,
        mirrored.radius == disk.radius,
    ensures
        coverage(mirrored, width - 1 - px, py) == coverage(disk, px, py),
{
    let dx = px * UNIT + UNIT / 2 - disk.cx;
    let back = (width - 1 - px) * UNIT + UNIT / 2 - mirrored.cx;
    assert(back == -dx);
    assert(back * back == dx * dx) by (nonlinear_arith)
        requires
            back == -dx,
    ;
    assert(forall|level: int|
        reaches(mirrored, width - 1 - px, py, level) == #[trigger] reaches(disk, px, py, level));
    lemma_coverage_same(disk, px, py, mirrored, width - 1 - px, py, 255);
}

proof fn lemma_coverage_same(
    a: Disk,
    ax: int,
    ay: int,
    b: Disk,
    bx: int,
    by: int,
    limit: nat,
)
    requires
        forall|level: int| reaches(b, bx, by, level) == #[trigger] reaches(a, ax, ay, level),
    ensures
        coverage_up_to(b, bx, by, limit) == coverage_up_to(a, ax, ay, limit),
    decreases limit,
{
    if limit > 0 {
        assert(reaches(b, bx, by, limit as int) == reaches(a, ax, ay, limit as int));
        lemma_coverage_same(a, ax, ay, b, bx, by, (limit - 1) as nat);
    }
}

/// Coverage measures how deep the pixel's centre lies inside the circle that is
/// half a pixel larger than the disk: it is at least `level` 255ths exactly if
/// the centre is at least that share of a pixel away from that circle's rim.
pub proof fn coverage_is_the_depth_inside_the_rim(disk: Disk, px: int, py: int, level: int)
    requires
        0 < level <= 255,
    ensures
        coverage(disk, px, py) <= 255,
        coverage(disk, px, py) >= level <==> ({
            let dx = px * UNIT + UNIT / 2 - disk.cx;
            let dy = py * UNIT + UNIT / 2 - disk.cy;
            let farthest = 255 * (disk.radius + UNIT / 2) - level * UNIT;
            0 <= farthest && (255 * 255) * (dx * dx + dy * dy) <= farthest * farthest
        }),
{
    let found = coverage(disk, px, py);
    lemma_coverage_bounds(disk, px, py, 255);
    assert(reaches(disk, px, py, level) == ({
        let dx = px * UNIT + UNIT / 2 - disk.cx;
        let dy = py * UNIT + UNIT / 2 - disk.cy;
        let farthest = 255 * (disk.radius + UNIT / 2) - level * UNIT;
        0 <= farthest && (255 * 255) * (dx * dx + dy * dy) <= farthest * farthest
    }));
    if found >= level {
        lemma_reaches_antitone(disk, px, py, level, found as int);
    }
    if reaches(disk, px, py, level) {
        lemma_coverage_at_least(disk, px, py, level as nat, 255);
    }
}

proof fn lemma_coverage_at_least(disk: Disk, px: int, py: int, level: nat, limit: nat)
    requires
        level <= limit,
        reaches(disk, px, py, level as int),
    ensures
        coverage_up_to(disk, px, py, limit) >= level,
    decreases limit,
{
    if level < limit {
        lemma_coverage_at_least(disk, px, py, level, (limit - 1) as nat);
    }
}

/// A larger disk around the same centre covers no pixel less.
pub proof fn larger_disk_covers_more(disk: Disk, larger: Disk, px: int, py: int)
    requires
        larger.cx == disk.cx,
        larger.cy == disk.cy,
        larger.radius >= disk.radius,
    ensures
        coverage(larger, px, py) >= coverage(disk, px, py),
{
    let level = coverage(disk, px, py);
    lemma_coverage_bounds(disk, px, py, 255);
    if level > 0 {
        let a = 255 * (disk.radius + UNIT / 2) - level * UNIT;
        let b = 255 * (larger.radius + UNIT / 2) - level * UNIT;
        assert(reaches(disk, px, py, level as int));
        assert(a * a <= b * b) by (nonlinear_arith)
            requires
                0 <= a <= b,
        ;
        lemma_coverage_at_least(larger, px, py, level, 255);
    }
}

/// A disk that is moved by whole pixels covers the moved pixels alike.
pub proof fn coverage_moves_with_the_disk(
    disk: Disk,
    moved: Disk,
    px: int,
    py: int,
    right: int,
    down: int,
)
    requires
        moved.cx == disk.cx + right * UNIT,
        moved.cy == disk.cy + down * UNIT,
        moved.radius == disk.radius,
    ensures
        coverage(moved, px + right, py + down) == coverage(disk, px, py),
{
    assert((px + right) * UNIT + UNIT / 2 - moved.cx == px * UNIT + UNIT / 2 - disk.cx);
    assert((py + down) * UNIT + UNIT / 2 - moved.cy == py * UNIT + UNIT / 2 - disk.cy);
    assert(forall|level: int|
        reaches(moved, px + right, py + down, level) == #[trigger] reaches(disk, px, py, level));
    lemma_coverage_same(disk, px, py, moved, px + right, py + down, 255);
}

/// Painting a disk turns a pixel that it covers more strongly than what is
/// there into ink of that strength, and leaves all four bytes of any other
/// pixel alone. The canvas keeps its size.
pub proof fn painting_lays_ink_where_it_is_stronger(
    canvas: Seq<u8>,
    width: int,
    disk: Disk,
    px: int,
    py: int,
)
    requires
        0 <= px < width,
        0 <= py,
        4 * (py * width + px) + 3 < canvas.len(),
    ensures
        ({
            let after = painted(canvas, width, disk);
            let at = 4 * (py * width + px);
            let level = coverage(disk, px, py);
            &&& after.len() == canvas.len()
            &&& level > canvas[at + 3] ==> after[at] == 100 && after[at + 1] == 210 && after[at + 2]
                == 255 && after[at + 3] == level
            &&& level <= canvas[at + 3] ==> after[at] == canvas[at] && after[at + 1] == canvas[at
                + 1] && after[at + 2] == canvas[at + 2] && after[at + 3] == canvas[at + 3]
        }),
{
    let pixel = py * width + px;
    assert(0 <= py * width) by (nonlinear_arith)
        requires
            0 <= py,
            0 < width,
    ;
    lemma_row_column(width, py, px);
    lemma_coverage_at_most(disk, px, py);
    assert((4 * pixel) / 4 == pixel && (4 * pixel) % 4 == 0);
    assert((4 * pixel + 1) / 4 == pixel && (4 * pixel + 1) % 4 == 1);
    assert((4 * pixel + 2) / 4 == pixel && (4 * pixel + 2) % 4 == 2);
    assert((4 * pixel + 3) / 4 == pixel && (4 * pixel + 3) % 4 == 3);
}

} // verus!
