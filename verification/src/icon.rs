//! The program's icon: two node circles joined by a sine wave of one and a half
//! cycles.

use crate::raster::{paint, Disk, UNIT};
use vstd::prelude::*;

verus! {

/// Width and height of the icon that the window and the tray show.
pub const ICON_SIZE: u32 = 32;

/// The sizes in which the icon is drawn; an icon file holds all three.
#[derive(Clone, Copy, Debug, PartialEq, Eq)]
pub enum IconSize {
    /// 16 by 16 pixels.
    Small,
    /// 32 by 32 pixels, as the window and the tray show it.
    Normal,
    /// 48 by 48 pixels.
    Large,
}

impl IconSize {
    /// Width and height in pixels.
    pub open spec fn side(self) -> int {
        match self {
            IconSize::Small => 16,
            IconSize::Normal => 32,
            IconSize::Large => 48,
        }
    }

    /// Width and height in pixels.
    pub fn pixels(self) -> (pixels: u32)
        ensures
            pixels == self.side(),
    {
        match self {
            IconSize::Small => 16,
            IconSize::Normal => ICON_SIZE,
            IconSize::Large => 48,
        }
    }
}

/// The number of disks that make up the icon: two nodes and the wave's steps.
pub const DISKS: u32 = 123;

/// The quarter wave `600000 * sin(k * pi / 40)` for `k` from 0 to 20, rounded.
pub open spec fn quarter_wave(k: int) -> int {
    if k == 0 {
        0
    } else if k == 1 {
        47_075
    } else if k == 2 {
        93_861
    } else if k == 3 {
        140_067
    } else if k == 4 {
        185_410
    } else if k == 5 {
        229_610
    } else if k == 6 {
        272_394
    } else if k == 7 {
        313_499
    } else if k == 8 {
        352_671
    } else if k == 9 {
        389_669
    } else if k == 10 {
        424_264
    } else if k == 11 {
        456_244
    } else if k == 12 {
        485_410
    } else if k == 13 {
        511_584
    } else if k == 14 {
        534_604
    } else if k == 15 {
        554_328
    } else if k == 16 {
        570_634
    } else if k == 17 {
        583_422
    } else if k == 18 {
        592_613
    } else if k == 19 {
        598_150
    } else {
        600_000
    }
}

/// The wave `600000 * sin(k * pi / 40)`: 80 steps make a cycle.
pub open spec fn wave(k: int) -> int {
    let half = k % 40;
    let height = quarter_wave(if half <= 20 { half } else { 40 - half });
    if k % 80 < 40 {
        height
    } else {
        -height
    }
}

/// Disk `i` of the icon: the left node, the right node, then the steps of the
/// wave from left to right. Measures are those of an icon of 32 pixels, scaled;
/// the wave's stroke has a least thickness.
pub open spec fn icon_disk(size: IconSize, i: int) -> Disk {
    let side = size.side();
    if i == 0 {
        Disk {
            cx: (660_000 * side) as i64,
            cy: (1_920_000 * side) as i64,
            radius: (540_000 * side) as i64,
        }
    } else if i == 1 {
        Disk {
            cx: (3_180_000 * side) as i64,
            cy: (1_920_000 * side) as i64,
            radius: (540_000 * side) as i64,
        }
    } else {
        Disk {
            cx: ((1_140_000 + 13_000 * (i - 2)) * side) as i64,
            cy: ((1_920_000 + wave(i - 2)) * side) as i64,
            radius: if side < 24 {
                4_320_000
            } else {
                (180_000 * side) as i64
            },
        }
    }
}

/// All disks of the icon.
pub open spec fn icon_disks(size: IconSize) -> Seq<Disk> {
    Seq::new(DISKS as nat, |i: int| icon_disk(size, i))
}

/// The greatest coverage that any of `disks` gives pixel `(px, py)`.
pub open spec fn peak(disks: Seq<Disk>, px: int, py: int) -> nat
    decreases disks.len(),
{
    if disks.len() == 0 {
        0
    } else {
        let rest = peak(disks.drop_last(), px, py);
        let last = crate::raster::coverage(disks.last(), px, py);
        if last > rest {
            last
        } else {
            rest
        }
    }
}

/// A picture of `disks` on a transparent canvas of `size` by `size` pixels:
/// ink at the peak coverage where any disk lies, zero bytes elsewhere.
pub open spec fn picture(disks: Seq<Disk>, size: int) -> Seq<u8> {
    Seq::new(
        (4 * (size * size)) as nat,
        |at: int|
            {
                let level = peak(disks, (at / 4) % size, (at / 4) / size);
                if level > 0 {
                    crate::raster::ink(level, at % 4)
                } else {
                    0
                }
            },
    )
}

proof fn lemma_peak_bound(disks: Seq<Disk>, px: int, py: int)
    ensures
        peak(disks, px, py) <= 255,
    decreases disks.len(),
{
    if disks.len() > 0 {
        lemma_peak_bound(disks.drop_last(), px, py);
        crate::raster::lemma_coverage_at_most(disks.last(), px, py);
    }
}

/// Painting one more disk on a picture gives the picture with that disk.
proof fn lemma_picture_step(disks: Seq<Disk>, size: int, disk: Disk)
    requires
        0 <= size,
    ensures
        crate::raster::painted(picture(disks, size), size, disk) == picture(
            disks.push(disk),
            size,
        ),
{
    let before = picture(disks, size);
    let after = picture(disks.push(disk), size);
    assert(disks.push(disk).drop_last() =~= disks);
    assert forall|at: int| 0 <= at < before.len() implies #[trigger] crate::raster::painted(
        before,
        size,
        disk,
    )[at] == after[at] by {
        let (px, py) = ((at / 4) % size, (at / 4) / size);
        let alpha = 4 * (at / 4) + 3;
        assert(alpha / 4 == at / 4 && alpha % 4 == 3);
        assert(0 <= size * size) by (nonlinear_arith);
        assert(alpha < before.len());
        lemma_peak_bound(disks, px, py);
        crate::raster::lemma_coverage_at_most(disk, px, py);
        assert(before[alpha] == peak(disks, px, py));
    }
    assert(crate::raster::painted(before, size, disk) =~= after);
}

/// The height of the wave at step `k`.
fn wave_height(k: u32) -> (height: i64)
    ensures
        height == wave(k as int),
        -600_000 <= height <= 600_000,
{
    let half: u32 = k % 40;
    let quarter: u32 = if half <= 20 { half } else { 40 - half };
    let height: i64 = match quarter {
        0 => 0,
        1 => 47_075,
        2 => 93_861,
        3 => 140_067,
        4 => 185_410,
        5 => 229_610,
        6 => 272_394,
        7 => 313_499,
        8 => 352_671,
        9 => 389_669,
        10 => 424_264,
        11 => 456_244,
        12 => 485_410,
        13 => 511_584,
        14 => 534_604,
        15 => 554_328,
        16 => 570_634,
        17 => 583_422,
        18 => 592_613,
        19 => 598_150,
        _ => 600_000,
    };
    if k % 80 < 40 {
        height
    } else {
        -height
    }
}

/// Disk `i` of the icon.
fn disk_of_icon(size: IconSize, i: u32) -> (disk: Disk)
    requires
        i < DISKS,
    ensures
        disk == icon_disk(size, i as int),
        disk.in_range(),
{
    let scale: i64 = size.pixels() as i64;
    if i == 0 {
        Disk { cx: 660_000 * scale, cy: 1_920_000 * scale, radius: 540_000 * scale }
    } else if i == 1 {
        Disk { cx: 3_180_000 * scale, cy: 1_920_000 * scale, radius: 540_000 * scale }
    } else {
        let step: i64 = i as i64 - 2;
        let height: i64 = wave_height(i - 2);
        let x: i64 = 1_140_000 + 13_000 * step;
        let y: i64 = 1_920_000 + height;
        assert(0 <= x * scale <= 2_700_000 * 48) by (nonlinear_arith)
            requires
                0 <= x <= 2_700_000,
                0 <= scale <= 48,
        ;
        assert(0 <= y * scale <= 2_520_000 * 48) by (nonlinear_arith)
            requires
                0 <= y <= 2_520_000,
                0 <= scale <= 48,
        ;
        Disk {
            cx: x * scale,
            cy: y * scale,
            radius: if scale < 24 {
                4_320_000
            } else {
                180_000 * scale
            },
        }
    }
}

/// The icon in one of its sizes, four bytes (red, green, blue, opacity) for
/// each pixel, row by row.
pub fn icon_rgba_sized(size: IconSize) -> (rgba: Vec<u8>)
    ensures
        rgba@ == picture(icon_disks(size), size.side()),
{
    let ghost side = size.side();
    let pixels: u32 = size.pixels();
    assert(0 <= pixels * pixels <= 48 * 48) by (nonlinear_arith)
        requires
            0 <= pixels <= 48,
    ;
    let mut rgba: Vec<u8> = vec![0u8; (pixels * pixels * 4) as usize];
    proof {
        assert(icon_disks(size).take(0) =~= Seq::<Disk>::empty());
        assert(rgba@ =~= picture(icon_disks(size).take(0), side));
    }
    let mut i: u32 = 0;
    while i < DISKS
        invariant
            i <= DISKS,
            side == pixels,
            0 <= pixels * pixels <= 48 * 48,
            rgba@ == picture(icon_disks(size).take(i as int), side),
        decreases DISKS - i,
    {
        let disk: Disk = disk_of_icon(size, i);
        paint(&mut rgba, pixels, pixels, disk);
        proof {
            let done = icon_disks(size).take(i as int);
            lemma_picture_step(done, side, disk);
            assert(done.push(disk) =~= icon_disks(size).take(i + 1));
        }
        i = i + 1;
    }
    assert(icon_disks(size).take(DISKS as int) =~= icon_disks(size));
    rgba
}

/// Two node circles connected by a sine wave of one and a half cycles, at
/// [`ICON_SIZE`] by [`ICON_SIZE`] pixels. Shared by the tray and the window.
pub fn icon_rgba() -> (rgba: Vec<u8>)
    ensures
        rgba@ == picture(icon_disks(IconSize::Normal), 32),
        rgba@.len() == 4096,
{
    icon_rgba_sized(IconSize::Normal)
}

/// The peak is reached by one of the disks and exceeded by none.
pub proof fn peak_is_greatest(disks: Seq<Disk>, px: int, py: int)
    ensures
        forall|i: int|
            0 <= i < disks.len() ==> #[trigger] crate::raster::coverage(disks[i], px, py) <= peak(
                disks,
                px,
                py,
            ),
        peak(disks, px, py) > 0 ==> exists|i: int|
            0 <= i < disks.len() && #[trigger] crate::raster::coverage(disks[i], px, py) == peak(
                disks,
                px,
                py,
            ),
    decreases disks.len(),
{
    if disks.len() > 0 {
        let rest = disks.drop_last();
        peak_is_greatest(rest, px, py);
        assert forall|i: int| 0 <= i < disks.len() implies #[trigger] crate::raster::coverage(
            disks[i],
            px,
            py,
        ) <= peak(disks, px, py) by {
            if i < rest.len() {
                assert(rest[i] == disks[i]);
            }
        }
        if peak(disks, px, py) > 0 {
            if crate::raster::coverage(disks.last(), px, py) > peak(rest, px, py) {
                assert(crate::raster::coverage(disks[disks.len() - 1], px, py) == peak(
                    disks,
                    px,
                    py,
                ));
            } else {
                let i = choose|i: int|
                    0 <= i < rest.len() && #[trigger] crate::raster::coverage(rest[i], px, py)
                        == peak(rest, px, py);
                assert(rest[i] == disks[i]);
            }
        }
    }
}

/// Every pixel of a picture is either fully transparent, with zero bytes, or
/// of the one ink colour.
pub proof fn picture_is_ink_or_clear(disks: Seq<Disk>, size: int, pixel: int)
    requires
        0 <= pixel < size * size,
    ensures
        ({
            let (red, green, blue, alpha) = (
                picture(disks, size)[4 * pixel],
                picture(disks, size)[4 * pixel + 1],
                picture(disks, size)[4 * pixel + 2],
                picture(disks, size)[4 * pixel + 3],
            );
            if alpha == 0 {
                red == 0 && green == 0 && blue == 0
            } else {
                red == 100 && green == 210 && blue == 255
            }
        }),
{
    assert((4 * pixel + 3) / 4 == pixel && (4 * pixel + 3) % 4 == 3);
    assert((4 * pixel + 2) / 4 == pixel && (4 * pixel + 2) % 4 == 2);
    assert((4 * pixel + 1) / 4 == pixel && (4 * pixel + 1) % 4 == 1);
    assert((4 * pixel) / 4 == pixel && (4 * pixel) % 4 == 0);
    lemma_peak_bound(disks, pixel % size, pixel / size);
}

/// The wave repeats, upside down, after each half cycle of 40 steps; its 120
/// steps are one and a half cycles.
pub proof fn wave_alternates(k: int)
    ensures
        wave(k + 40) == -wave(k),
        wave(k + 80) == wave(k),
{
}

/// The wave is the same from either end.
pub proof fn wave_is_symmetric(k: int)
    requires
        0 <= k <= 120,
    ensures
        wave(120 - k) == wave(k),
{
}

/// The quarter wave is a sine up to rounding: with the cosine read backwards
/// from it, each point lies on the circle, and each step is one rotation by
/// the same angle.
pub proof fn quarter_wave_is_a_sine(k: int)
    requires
        0 <= k <= 20,
    ensures
        ({
            let (sine, cosine) = (quarter_wave(k), quarter_wave(20 - k));
            let radius = 600_000int;
            -radius <= sine * sine + cosine * cosine - radius * radius <= radius
        }),
        k < 20 ==> ({
            let (sine, cosine) = (quarter_wave(k), quarter_wave(20 - k));
            let (step_sine, step_cosine) = (quarter_wave(1), quarter_wave(19));
            let radius = 600_000int;
            -2 * radius <= sine * step_cosine + cosine * step_sine - radius * quarter_wave(k + 1)
                <= 2 * radius
        }),
{
}

/// The mirror image of disk `i` of the icon is disk `mirror_index(i)`.
pub open spec fn mirror_index(i: int) -> int {
    if i < 2 {
        1 - i
    } else {
        124 - i
    }
}

proof fn lemma_mirrored_disk(size: IconSize, i: int)
    requires
        0 <= i < DISKS,
    ensures
        0 <= mirror_index(i) < DISKS,
        icon_disk(size, mirror_index(i)).cx == size.side() * UNIT - icon_disk(size, i).cx,
        icon_disk(size, mirror_index(i)).cy == icon_disk(size, i).cy,
        icon_disk(size, mirror_index(i)).radius == icon_disk(size, i).radius,
{
    let side = size.side();
    if i >= 2 {
        let k = i - 2;
        wave_is_symmetric(k);
        let x = 1_140_000 + 13_000 * k;
        let back = 1_140_000 + 13_000 * (120 - k);
        assert(back == 3_840_000 - x);
        assert(0 <= x * side <= 2_700_000 * 48 && back * side == 3_840_000 * side - x * side && 0
            <= back * side <= 2_700_000 * 48) by (nonlinear_arith)
            requires
                0 <= x <= 2_700_000,
                0 <= back <= 2_700_000,
                back == 3_840_000 - x,
                0 <= side <= 48,
        ;
    }
}

proof fn lemma_peak_mirror_at_most(size: IconSize, px: int, py: int)
    ensures
        peak(icon_disks(size), px, py) <= peak(icon_disks(size), size.side() - 1 - px, py),
{
    let disks = icon_disks(size);
    peak_is_greatest(disks, px, py);
    peak_is_greatest(disks, size.side() - 1 - px, py);
    if peak(disks, px, py) > 0 {
        let i = choose|i: int|
            0 <= i < disks.len() && #[trigger] crate::raster::coverage(disks[i], px, py) == peak(
                disks,
                px,
                py,
            );
        lemma_mirrored_disk(size, i);
        crate::raster::coverage_mirrors(disks[i], disks[mirror_index(i)], size.side(), px, py);
    }
}

/// The icon looks the same in a mirror: reading any row backwards gives the
/// same pixels.
pub proof fn icon_is_symmetric(size: IconSize, px: int, py: int, channel: int)
    requires
        0 <= px < size.side(),
        0 <= py < size.side(),
        0 <= channel < 4,
    ensures
        ({
            let side = size.side();
            let icon = picture(icon_disks(size), side);
            icon[4 * (py * side + px) + channel] == icon[4 * (py * side + (side - 1 - px))
                + channel]
        }),
{
    let side = size.side();
    let back = side - 1 - px;
    crate::raster::lemma_row_column(side, py, px);
    crate::raster::lemma_row_column(side, py, back);
    assert(0 <= py * side && py * side + side <= side * side) by (nonlinear_arith)
        requires
            0 <= py < side,
    ;
    lemma_peak_mirror_at_most(size, px, py);
    lemma_peak_mirror_at_most(size, back, py);
    assert((4 * (py * side + px) + channel) / 4 == py * side + px);
    assert((4 * (py * side + back) + channel) / 4 == py * side + back);
}

/// A picture shows each pixel as strongly as the disk that covers it most, in
/// the one ink colour, and nothing where no disk lies.
pub proof fn picture_shows_the_peak(disks: Seq<Disk>, size: int, px: int, py: int)
    requires
        0 <= px < size,
        0 <= py < size,
    ensures
        ({
            let shown = picture(disks, size);
            let at = 4 * (py * size + px);
            let level = peak(disks, px, py);
            &&& shown.len() == 4 * (size * size)
            &&& shown[at + 3] == level
            &&& level > 0 ==> shown[at] == 100 && shown[at + 1] == 210 && shown[at + 2] == 255
            &&& level == 0 ==> shown[at] == 0 && shown[at + 1] == 0 && shown[at + 2] == 0
        }),
{
    let pixel = py * size + px;
    assert(0 <= py * size && py * size + size <= size * size) by (nonlinear_arith)
        requires
            0 <= py < size,
    ;
    crate::raster::lemma_row_column(size, py, px);
    lemma_peak_bound(disks, px, py);
    assert((4 * pixel) / 4 == pixel && (4 * pixel) % 4 == 0);
    assert((4 * pixel + 1) / 4 == pixel && (4 * pixel + 1) % 4 == 1);
    assert((4 * pixel + 2) / 4 == pixel && (4 * pixel + 2) % 4 == 2);
    assert((4 * pixel + 3) / 4 == pixel && (4 * pixel + 3) % 4 == 3);
}

} // verus!
