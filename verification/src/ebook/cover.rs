//! Image work for the book: album-art thumbnails and the cover collage.
//!
//! All the dimension arithmetic goes through `u64` and saturates: image dimensions
//! multiplied together overflow `u32` readily.
use vstd::prelude::*;

verus! {

/// Longest edge, in pixels, of an album-art thumbnail embedded in the book.
pub const ART_MAX_EDGE: u32 = 600;

/// Cover canvas size, a 2:3 portrait.
pub const COVER_WIDTH: u32 = 1600;

pub const COVER_HEIGHT: u32 = 2400;

/// Most tiles the collage will ever decode.
pub const MAX_TILES: u64 = 96;

/// Widest grid allowed.
pub const MAX_COLUMNS: u64 = 8;

/// `value * numerator / denominator`, clamped into `u32`; 0 when the denominator is 0.
pub open spec fn spec_scale(value: u32, numerator: u32, denominator: u32) -> u32 {
    if denominator == 0 {
        0
    } else {
        let q = (value as int * numerator as int) / (denominator as int);
        if q > u32::MAX {
            u32::MAX
        } else {
            q as u32
        }
    }
}

/// `value * numerator / denominator`, computed in `u64` and clamped back into `u32`.
pub fn scale(value: u32, numerator: u32, denominator: u32) -> (r: u32)
    ensures
        r == spec_scale(value, numerator, denominator),
{
    if denominator == 0 {
        return 0;
    }
    assert(value as int * numerator as int <= 0xffff_ffff * 0xffff_ffff) by (nonlinear_arith)
        requires
            value <= 0xffff_ffff,
            numerator <= 0xffff_ffff,
    ;
    let product = (value as u64) * (numerator as u64);
    let q = product / (denominator as u64);
    if q > 0xffff_ffff {
        0xffff_ffff
    } else {
        q as u32
    }
}

pub open spec fn max1(n: u32) -> u32 {
    if n < 1 {
        1
    } else {
        n
    }
}

/// `(width, height)` scaled down so the longest edge is at most `max_edge`, aspect kept and
/// no edge below 1; unchanged when it already fits.
pub open spec fn spec_fit_within(width: u32, height: u32, max_edge: u32) -> (u32, u32) {
    let longest = if width >= height {
        width
    } else {
        height
    };
    if longest <= max_edge || longest == 0 {
        (width, height)
    } else {
        (max1(spec_scale(width, max_edge, longest)), max1(spec_scale(height, max_edge, longest)))
    }
}

/// Scale `(width, height)` down so its longest edge is at most `max_edge`, preserving aspect
/// ratio. Returns the input unchanged when it already fits.
pub fn fit_within(width: u32, height: u32, max_edge: u32) -> (r: (u32, u32))
    ensures
        r == spec_fit_within(width, height, max_edge),
{
    let longest = if width >= height {
        width
    } else {
        height
    };
    if longest <= max_edge || longest == 0 {
        return (width, height);
    }
    let w = scale(width, max_edge, longest);
    let h = scale(height, max_edge, longest);
    (if w < 1 {
        1
    } else {
        w
    }, if h < 1 {
        1
    } else {
        h
    })
}

/// The integer square root: the largest `r` with `r * r <= n`.
pub open spec fn is_isqrt(n: int, r: int) -> bool {
    0 <= r && r * r <= n < (r + 1) * (r + 1)
}

fn isqrt(n: u64) -> (r: u64)
    requires
        n <= 0xffff_ffff,
    ensures
        is_isqrt(n as int, r as int),
{
    let mut r: u64 = 0;
    loop
        invariant
            r * r <= n,
            n <= 0xffff_ffff,
            r <= 0x1_0000,
        ensures
            is_isqrt(n as int, r as int),
        decreases n - r * r,
    {
        assert((r + 1) * (r + 1) <= 0x1_0001 * 0x1_0001) by (nonlinear_arith)
            requires
                r <= 0x1_0000,
        ;
        let next = (r + 1) * (r + 1);
        if next > n {
            break;
        }
        assert((r + 1) * (r + 1) > r * r) by (nonlinear_arith);
        assert(r + 1 <= 0x1_0000) by (nonlinear_arith)
            requires
                (r + 1) * (r + 1) <= n,
                n <= 0xffff_ffff,
        ;
        r = r + 1;
    }
    r
}

/// The collage grid for `count` decoded images: columns from the canvas aspect so cells are
/// roughly square (at most eight), rows as many as fill up without asking for more images
/// than there are; nothing for no images. At most 96 images count.
pub open spec fn spec_grid_for(count: usize) -> (u32, u32) {
    let c = if count > MAX_TILES {
        MAX_TILES as int
    } else {
        count as int
    };
    if c == 0 {
        (0, 0)
    } else {
        let ratio = c * 1600 / 2400;
        let s = choose|r: int| #[trigger] is_isqrt(ratio, r);
        let columns = if s < 1 {
            1
        } else if s > 8 {
            8
        } else {
            s
        };
        let rows = if c / columns < 1 {
            1
        } else {
            c / columns
        };
        (columns as u32, rows as u32)
    }
}

proof fn lemma_isqrt_unique(n: int, a: int, b: int)
    requires
        is_isqrt(n, a),
        is_isqrt(n, b),
    ensures
        a == b,
{
    if a < b {
        assert((a + 1) * (a + 1) <= b * b) by (nonlinear_arith)
            requires
                0 <= a < b,
        ;
    } else if b < a {
        assert((b + 1) * (b + 1) <= a * a) by (nonlinear_arith)
            requires
                0 <= b < a,
        ;
    }
}

/// Choose a grid that fits `count` distinct images without repeating any.
pub fn grid_for(count: usize) -> (r: (u32, u32))
    ensures
        r == spec_grid_for(count),
{
    let c: u64 = if count as u64 > MAX_TILES {
        MAX_TILES
    } else {
        count as u64
    };
    if c == 0 {
        return (0, 0);
    }
    let ratio = c * 1600 / 2400;
    let s = isqrt(ratio);
    proof {
        let t = choose|r: int| #[trigger] is_isqrt(ratio as int, r);
        assert(is_isqrt(ratio as int, s as int));
        lemma_isqrt_unique(ratio as int, t, s as int);
    }
    let columns: u64 = if s < 1 {
        1
    } else if s > MAX_COLUMNS {
        MAX_COLUMNS
    } else {
        s
    };
    let rows: u64 = if c / columns < 1 {
        1
    } else {
        c / columns
    };
    (columns as u32, rows as u32)
}

/// A grid for at least one image has at least one cell, and never more cells than images.
pub proof fn lemma_grid_never_asks_for_more_images(count: usize)
    requires
        count >= 1,
    ensures
        spec_grid_for(count).0 >= 1,
        spec_grid_for(count).1 >= 1,
        spec_grid_for(count).0 as int * spec_grid_for(count).1 as int <= count,
        spec_grid_for(count).0 as int * spec_grid_for(count).1 as int <= MAX_TILES,
        spec_grid_for(count).0 <= MAX_COLUMNS,
{
    let c = if count > MAX_TILES {
        MAX_TILES as int
    } else {
        count as int
    };
    let ratio = c * 1600 / 2400;
    let s = choose|r: int| #[trigger] is_isqrt(ratio, r);
    assert(exists|r: int| is_isqrt(ratio, r)) by {
        lemma_isqrt_exists(ratio);
    }
    let columns = if s < 1 {
        1
    } else if s > 8 {
        8
    } else {
        s
    };
    assert(columns <= c) by (nonlinear_arith)
        requires
            is_isqrt(ratio, s),
            ratio == c * 1600 / 2400,
            1 <= c <= 96,
            columns == (if s < 1 {
                1
            } else if s > 8 {
                8
            } else {
                s
            }),
    ;
    let rows = if c / columns < 1 {
        1
    } else {
        c / columns
    };
    assert(columns * rows <= c) by (nonlinear_arith)
        requires
            1 <= columns <= c,
            rows == (if c / columns < 1 {
                1
            } else {
                c / columns
            }),
    ;
}

proof fn lemma_isqrt_exists(n: int)
    requires
        n >= 0,
    ensures
        exists|r: int| is_isqrt(n, r),
    decreases n,
{
    if n == 0 {
        assert(is_isqrt(0, 0));
    } else {
        lemma_isqrt_exists(n - 1);
        let r = choose|r: int| #[trigger] is_isqrt(n - 1, r);
        if (r + 1) * (r + 1) <= n {
            assert(n < (r + 2) * (r + 2)) by (nonlinear_arith)
                requires
                    n - 1 < (r + 1) * (r + 1),
                    r >= 0,
            ;
            assert(is_isqrt(n, r + 1));
        } else {
            assert(is_isqrt(n, r));
        }
    }
}


/// `x` clamped into `usize`: the result of a saturating operation whose exact value is `x`.
pub open spec fn sat_usize(x: int) -> int {
    if x > usize::MAX {
        usize::MAX as int
    } else {
        x
    }
}

/// The index the `i`-th of `count` picks takes from `len` items: the midpoint of the `i`-th
/// of `count` equal buckets, `(2i + 1) * len / 2count`, each step saturating.
pub open spec fn pick_index(i: int, len: int, count: int) -> int {
    sat_usize(sat_usize(sat_usize(i * 2) + 1) * len) / sat_usize(count * 2)
}

/// The bucket midpoints of the first `k` picks, dropping any that fall past the end.
pub open spec fn picks_upto(len: nat, count: nat, k: nat) -> Seq<int>
    decreases k,
{
    if k == 0 {
        seq![]
    } else {
        let p = picks_upto(len, count, (k - 1) as nat);
        let idx = pick_index(k - 1, len as int, count as int);
        if idx < len {
            p.push(idx)
        } else {
            p
        }
    }
}

/// Which of `len` items `pick_evenly` takes for `count`: none when either is 0, all of them
/// when they fit, else one per bucket.
pub open spec fn picked_indices(len: nat, count: nat) -> Seq<int> {
    if len == 0 || count == 0 {
        seq![]
    } else if len <= count {
        Seq::new(len, |i: int| i)
    } else {
        picks_upto(len, count, count)
    }
}

proof fn lemma_picks_upto_in_range(len: nat, count: nat, k: nat)
    requires
        count > 0,
    ensures
        forall|j: int| 0 <= j < picks_upto(len, count, k).len() ==> 0 <= #[trigger] picks_upto(len, count, k)[j] < len,
    decreases k,
{
    if k > 0 {
        lemma_picks_upto_in_range(len, count, (k - 1) as nat);
        let i = k - 1;
        let a = sat_usize(sat_usize(i * 2) + 1);
        assert(a >= 0);
        assert(a * len >= 0) by (nonlinear_arith)
            requires
                a >= 0,
        ;
        assert(pick_index(i, len as int, count as int) >= 0) by (nonlinear_arith)
            requires
                sat_usize(a * len) >= 0,
                sat_usize(count as int * 2) > 0,
                pick_index(i, len as int, count as int) == sat_usize(a * len) / sat_usize(count as int * 2),
        ;
        let p = picks_upto(len, count, (k - 1) as nat);
        let idx = pick_index(i, len as int, count as int);
        assert forall|j: int| 0 <= j < picks_upto(len, count, k).len() implies 0 <= #[trigger] picks_upto(len, count, k)[j] < len by {
            if idx < len {
                assert(picks_upto(len, count, k) == p.push(idx));
                if j < p.len() {
                    assert(p[j] == picks_upto(len, count, k)[j]);
                }
            } else {
                assert(picks_upto(len, count, k) == p);
            }
        }
    }
}

fn sat_mul(a: usize, b: usize) -> (r: usize)
    ensures
        r == sat_usize(a * b),
{
    match a.checked_mul(b) {
        Some(p) => p,
        None => usize::MAX,
    }
}

/// Take `count` items spread evenly across `items`, rather than the first `count`: item `k`
/// of the result is a clone of the item at the `k`-th of `picked_indices`.
pub fn pick_evenly<T: Clone>(items: &[T], count: usize) -> (r: Vec<T>)
    ensures
        r.len() == picked_indices(items.len() as nat, count as nat).len(),
        forall|k: int|
            0 <= k < r.len() ==> cloned(
                items@[picked_indices(items.len() as nat, count as nat)[k]],
                #[trigger] r@[k],
            ),
{
    let ghost len = items.len() as nat;
    let mut out: Vec<T> = Vec::new();
    if items.len() == 0 || count == 0 {
        return out;
    }
    if items.len() <= count {
        let mut i: usize = 0;
        while i < items.len()
            invariant
                i <= items.len(),
                out.len() == i,
                forall|k: int| 0 <= k < i ==> cloned(items@[k], #[trigger] out@[k]),
            decreases items.len() - i,
        {
            out.push(items[i].clone());
            i = i + 1;
        }
        return out;
    }
    let denominator = sat_mul(count, 2);
    let mut i: usize = 0;
    while i < count
        invariant
            0 < count < items.len(),
            len == items.len(),
            denominator == sat_usize(count * 2),
            i <= count,
            out.len() == picks_upto(len, count as nat, i as nat).len(),
            forall|k: int|
                0 <= k < out.len() ==> cloned(
                    items@[picks_upto(len, count as nat, i as nat)[k]],
                    #[trigger] out@[k],
                ),
        decreases count - i,
    {
        proof {
            lemma_picks_upto_in_range(len, count as nat, i as nat);
        }
        let numerator = sat_mul(sat_mul(i, 2).saturating_add(1), items.len());
        let index = numerator / denominator;
        assert(index == pick_index(i as int, len as int, count as int));
        if index < items.len() {
            out.push(items[index].clone());
        }
        i = i + 1;
    }
    out
}

proof fn lemma_picks_exact(len: nat, count: nat, k: nat)
    requires
        0 < count < len,
        k <= count,
        2 * count * len <= usize::MAX,
    ensures
        picks_upto(len, count, k).len() == k,
        forall|j: int|
            0 <= j < k ==> #[trigger] picks_upto(len, count, k)[j] == (2 * j + 1) * len / (2
                * count as int),
    decreases k,
{
    if k > 0 {
        lemma_picks_exact(len, count, (k - 1) as nat);
        let i = k - 1;
        assert((2 * i + 1) * len <= 2 * count * len) by (nonlinear_arith)
            requires
                0 <= i < count,
        ;
        assert((2 * i + 1) * len / (2 * count as int) < len) by (nonlinear_arith)
            requires
                0 <= i < count,
                len > 0,
        ;
        assert((2 * i + 1) * len >= 0) by (nonlinear_arith)
            requires
                i >= 0,
        ;
        assert(2 * count <= 2 * count * len) by (nonlinear_arith)
            requires
                len >= 1,
        ;
        assert(sat_usize(i * 2) == i * 2);
        assert(sat_usize(i * 2 + 1) == 2 * i + 1);
        assert(sat_usize((2 * i + 1) * len) == (2 * i + 1) * len);
        assert(sat_usize(count as int * 2) == 2 * count);
        assert(pick_index(i, len as int, count as int) == (2 * i + 1) * len / (2 * count as int));
        let p = picks_upto(len, count, (k - 1) as nat);
        assert(picks_upto(len, count, k) == p.push((2 * i + 1) * len / (2 * count as int)));
        assert forall|j: int| 0 <= j < k implies #[trigger] picks_upto(len, count, k)[j] == (2 * j
            + 1) * len / (2 * count as int) by {
            if j < k - 1 {
                assert(picks_upto(len, count, k)[j] == p[j]);
            }
        }
    }
}

/// When the bucket arithmetic cannot saturate, `pick_evenly` takes `min(len, count)` items,
/// in order, none twice: every one when they fit, else item `(2j + 1) * len / (2 * count)`
/// for the `j`-th pick, the midpoint of its bucket.
pub proof fn lemma_pick_evenly_spreads(len: nat, count: nat)
    requires
        2 * count * len <= usize::MAX,
    ensures
        picked_indices(len, count).len() == if len <= count { len } else { count },
        forall|a: int, b: int|
            0 <= a < b < picked_indices(len, count).len() ==> 0 <= #[trigger] picked_indices(len, count)[a]
                < #[trigger] picked_indices(len, count)[b] < len,
        len <= count ==> forall|j: int| 0 <= j < len ==> #[trigger] picked_indices(len, count)[j] == j,
        count < len ==> forall|j: int|
            0 <= j < count ==> #[trigger] picked_indices(len, count)[j] == (2 * j + 1) * len / (2 * count as int),
{
    if len == 0 || count == 0 {
        return;
    }
    if len <= count {
        return;
    }
    lemma_picks_exact(len, count, count);
    lemma_picks_upto_in_range(len, count, count);
    let s = picked_indices(len, count);
    assert forall|a: int, b: int| 0 <= a < b < count implies 0 <= #[trigger] s[a] < #[trigger] s[b]
        < len by {
        let d = 2 * count as int;
        let x = (2 * a + 1) * len;
        let y = (2 * b + 1) * len;
        assert(y >= x + d) by (nonlinear_arith)
            requires
                x == (2 * a + 1) * len,
                y == (2 * b + 1) * len,
                d == 2 * count as int,
                0 <= a < b,
                count < len,
        ;
        assert(x / d < y / d) by (nonlinear_arith)
            requires
                y >= x + d,
                x >= 0,
                d > 0,
        ;
        assert(s[a] == x / d);
        assert(s[b] == y / d);
    }
}

// ---------------------------------------------------------------------------------------
// Rasters
// ---------------------------------------------------------------------------------------

/// How much the collage is darkened, out of 255, so the title plate stays legible over it.
pub const COVER_DIM: u32 = 150;

/// An RGB image: `width` by `height` pixels, three bytes each, row by row from the top left.
pub struct Raster {
    pub width: u32,
    pub height: u32,
    pub pixels: Vec<u8>,
}

impl Raster {
    /// Its bytes are exactly its pixels.
    pub open spec fn wf(&self) -> bool {
        self.pixels@.len() == self.width as int * self.height as int * 3
    }

    /// Every pixel `rgb`: `RgbImage::from_pixel`.
    pub fn filled(width: u32, height: u32, rgb: (u8, u8, u8)) -> (r: Raster)
        requires
            width as int * height as int * 3 <= usize::MAX,
        ensures
            r.wf(),
            r.width == width,
            r.height == height,
            forall|k: int| 0 <= k < r.pixels@.len() ==> #[trigger] r.pixels@[k] == if k % 3 == 0 {
                rgb.0
            } else if k % 3 == 1 {
                rgb.1
            } else {
                rgb.2
            },
    {
        let n = (width as usize) * (height as usize) * 3;
        let mut pixels: Vec<u8> = Vec::new();
        let mut k: usize = 0;
        while k < n
            invariant
                k <= n,
                n == width as int * height as int * 3,
                pixels@.len() == k,
                forall|j: int| 0 <= j < k ==> #[trigger] pixels@[j] == if j % 3 == 0 {
                    rgb.0
                } else if j % 3 == 1 {
                    rgb.1
                } else {
                    rgb.2
                },
            decreases n - k,
        {
            let c = k % 3;
            let v = if c == 0 {
                rgb.0
            } else if c == 1 {
                rgb.1
            } else {
                rgb.2
            };
            pixels.push(v);
            k = k + 1;
        }
        Raster { width, height, pixels }
    }
}

/// One channel darkened toward black by `COVER_DIM`/255.
pub open spec fn dimmed(b: u8) -> u8 {
    (b as int * COVER_DIM as int / 255) as u8
}

/// Darken every pixel toward black by `COVER_DIM`/255, so white text over the collage reads.
pub fn dim(image: &mut Raster)
    ensures
        final(image).width == old(image).width,
        final(image).height == old(image).height,
        final(image).pixels@.len() == old(image).pixels@.len(),
        forall|k: int| 0 <= k < old(image).pixels@.len() ==> #[trigger] final(image).pixels@[k] == dimmed(old(image).pixels@[k]),
{
    let n = image.pixels.len();
    let mut k: usize = 0;
    while k < n
        invariant
            n == old(image).pixels@.len(),
            image.width == old(image).width,
            image.height == old(image).height,
            image.pixels@.len() == n,
            k <= n,
            forall|j: int| 0 <= j < k ==> #[trigger] image.pixels@[j] == dimmed(old(image).pixels@[j]),
            forall|j: int| k <= j < n ==> #[trigger] image.pixels@[j] == old(image).pixels@[j],
        decreases n - k,
    {
        let b = image.pixels[k];
        assert(b as int * 150 <= 255 * 150) by (nonlinear_arith)
            requires
                b <= 255,
        ;
        let v = ((b as u32) * COVER_DIM / 255) as u8;
        image.pixels.set(k, v);
        k = k + 1;
    }
}

/// Dimming never brightens a channel.
pub proof fn lemma_dim_only_darkens(b: u8)
    ensures
        dimmed(b) <= b,
{
    assert(b as int * 150 / 255 <= b) by (nonlinear_arith)
        requires
            0 <= b <= 255,
    ;
}

proof fn lemma_pixel_index(w: int, h: int, x: int, y: int, c: int)
    requires
        0 <= x < w,
        0 <= y < h,
        0 <= c < 3,
    ensures
        0 <= (y * w + x) * 3 + c < w * h * 3,
{
    assert(y * w + x < w * h) by (nonlinear_arith)
        requires
            0 <= x < w,
            0 <= y < h,
    ;
    assert(0 <= y * w) by (nonlinear_arith)
        requires
            0 <= y,
            0 <= w,
    ;
}

/// The byte of the pixel at `(x, y)`, channel `c`, of an image `w` wide.
pub open spec fn at(pixels: Seq<u8>, w: int, x: int, y: int, c: int) -> u8 {
    pixels[(y * w + x) * 3 + c]
}

/// The region `imageops::crop` keeps: the origin clamped into the image, the size clamped to
/// what is left of it.
pub open spec fn crop_bounds(iw: u32, ih: u32, x: u32, y: u32, w: u32, h: u32) -> (u32, u32, u32, u32) {
    let cx = if x < iw { x } else { iw };
    let cy = if y < ih { y } else { ih };
    (cx, cy, if w < iw - cx { w } else { (iw - cx) as u32 }, if h < ih - cy { h } else { (ih - cy) as u32 })
}

/// The pixels of `src` (`iw` wide) in the `w` by `h` rectangle at `(x, y)`, row by row.
pub open spec fn cropped(src: Seq<u8>, iw: int, x: int, y: int, w: int, h: int) -> Seq<u8> {
    Seq::new((w * h * 3) as nat, |k: int| at(src, iw, x + (k / 3) % w, y + (k / 3) / w, k % 3))
}

/// `imageops::crop(..).to_image()`: the part of `image` in the rectangle at `(x, y)`, `width`
/// by `height`, clamped to the image.
pub fn crop(image: &Raster, x: u32, y: u32, width: u32, height: u32) -> (r: Raster)
    requires
        image.wf(),
    ensures
        r.wf(),
        ({
            let (cx, cy, cw, ch) = crop_bounds(image.width, image.height, x, y, width, height);
            &&& r.width == cw
            &&& r.height == ch
            &&& r.pixels@ == cropped(image.pixels@, image.width as int, cx as int, cy as int, cw as int, ch as int)
        }),
{
    let iw = image.width;
    let ih = image.height;
    let cx = if x < iw {
        x
    } else {
        iw
    };
    let cy = if y < ih {
        y
    } else {
        ih
    };
    let cw = if width < iw - cx {
        width
    } else {
        iw - cx
    };
    let ch = if height < ih - cy {
        height
    } else {
        ih - cy
    };
    assert(cw as int * ch as int <= iw as int * ih as int) by (nonlinear_arith)
        requires
            cw <= iw,
            ch <= ih,
    ;
    let total = image.pixels.len();
    assert(cw as int * ch as int * 3 <= total);
    assert((cw as usize) * (ch as usize) <= total);
    let n = (cw as usize) * (ch as usize) * 3;
    let ghost want = cropped(image.pixels@, iw as int, cx as int, cy as int, cw as int, ch as int);
    let mut out: Vec<u8> = Vec::new();
    let mut k: usize = 0;
    while k < n
        invariant
            image.wf(),
            iw == image.width,
            ih == image.height,
            cx + cw <= iw,
            cy + ch <= ih,
            n == cw as int * ch as int * 3,
            total == image.pixels@.len(),
            want == cropped(image.pixels@, iw as int, cx as int, cy as int, cw as int, ch as int),
            k <= n,
            out@ == want.take(k as int),
        decreases n - k,
    {
        let p = k / 3;
        let c = k % 3;
        assert(cw > 0) by (nonlinear_arith)
            requires
                (k as int) < cw as int * ch as int * 3,
                k >= 0,
        ;
        let i = p % (cw as usize);
        let j = p / (cw as usize);
        assert(j < ch) by (nonlinear_arith)
            requires
                p as int == k as int / 3,
                (k as int) < cw as int * ch as int * 3,
                j as int == p as int / (cw as int),
                cw > 0,
        ;
        let sx = (cx as usize) + i;
        let sy = (cy as usize) + j;
        proof {
            lemma_pixel_index(iw as int, ih as int, sx as int, sy as int, c as int);
            assert(sy as int * iw as int <= sy as int * iw as int + sx as int);
        }
        let row = sy * (iw as usize);
        let idx = (row + sx) * 3 + c;
        out.push(image.pixels[idx]);
        proof {
            assert(out@ =~= want.take(k as int + 1));
        }
        k = k + 1;
    }
    proof {
        assert(want.take(n as int) =~= want);
    }
    Raster { width: cw, height: ch, pixels: out }
}

/// Whether pixel number `p` of an image `w` wide lies in the `tw` by `th` rectangle at
/// `(x, y)`, among its first `rows` rows and, in row `rows`, its first `bytes` bytes.
pub open spec fn in_paste(p: int, w: int, x: int, y: int, tw: int, th: int) -> bool {
    &&& x <= p % w < x + tw
    &&& y <= p / w < y + th
}

/// `imageops::replace` at a non-negative offset: the pixels of `old` (`w` wide) under the
/// rectangle where `top` (`tw` by `th`) lands at `(x, y)` replaced by `top`'s, the rest kept.
pub open spec fn pasted(old: Seq<u8>, w: int, top: Seq<u8>, tw: int, th: int, x: int, y: int) -> Seq<u8> {
    Seq::new(old.len(), |k: int| if in_paste(k / 3, w, x, y, tw, th) {
        at(top, tw, (k / 3) % w - x, (k / 3) / w - y, k % 3)
    } else {
        old[k]
    })
}

/// The same, for the rows of the rectangle before `rows` and the first `bytes` bytes of row
/// `rows`.
pub open spec fn pasted_upto(old: Seq<u8>, w: int, top: Seq<u8>, tw: int, th: int, x: int, y: int, rows: int, bytes: int) -> Seq<u8> {
    Seq::new(old.len(), |k: int| if in_paste(k / 3, w, x, y, tw, th) && ((k / 3) / w - y < rows || ((k / 3) / w - y == rows && ((k / 3) % w - x) * 3 + k % 3 < bytes)) {
        at(top, tw, (k / 3) % w - x, (k / 3) / w - y, k % 3)
    } else {
        old[k]
    })
}

proof fn lemma_decompose(w: int, xx: int, yy: int, c: int)
    requires
        0 <= xx < w,
        0 <= yy,
        0 <= c < 3,
    ensures
        ((yy * w + xx) * 3 + c) / 3 == yy * w + xx,
        ((yy * w + xx) * 3 + c) % 3 == c,
        (yy * w + xx) % w == xx,
        (yy * w + xx) / w == yy,
{
    vstd::arithmetic::div_mod::lemma_fundamental_div_mod_converse((yy * w + xx) * 3 + c, 3, yy * w + xx, c);
    vstd::arithmetic::div_mod::lemma_fundamental_div_mod_converse(yy * w + xx, w, yy, xx);
}

/// `imageops::replace(canvas, top, x, y)`: `top` painted onto `canvas` at `(x, y)`, clipped
/// to the canvas.
pub fn paste(canvas: &mut Raster, top: &Raster, x: u32, y: u32)
    requires
        old(canvas).wf(),
        top.wf(),
    ensures
        final(canvas).wf(),
        final(canvas).width == old(canvas).width,
        final(canvas).height == old(canvas).height,
        final(canvas).pixels@ == pasted(old(canvas).pixels@, old(canvas).width as int, top.pixels@, top.width as int, top.height as int, x as int, y as int),
{
    let w = canvas.width;
    let h = canvas.height;
    let tw = top.width;
    let th = top.height;
    let ghost old_px = canvas.pixels@;
    let total = canvas.pixels.len();
    let ttotal = top.pixels.len();
    let rw: u32 = if x >= w {
        0
    } else if tw < w - x {
        tw
    } else {
        w - x
    };
    let rh: u32 = if y >= h {
        0
    } else if th < h - y {
        th
    } else {
        h - y
    };
    let mut r: u32 = 0;
    proof {
        assert(pasted_upto(old_px, w as int, top.pixels@, tw as int, th as int, x as int, y as int, 0, 0) =~= old_px);
    }
    while r < rh
        invariant
            canvas.wf(),
            canvas.width == w,
            canvas.height == h,
            top.wf(),
            top.width == tw,
            top.height == th,
            total == canvas.pixels@.len(),
            ttotal == top.pixels@.len(),
            old_px.len() == total,
            rw <= tw,
            rh <= th,
            rw > 0 ==> x + rw <= w,
            rh > 0 ==> y + rh <= h,
            rw == 0 ==> (x >= w || tw == 0),
            rw > 0 ==> (rw == tw || x + rw == w),
            rh > 0 ==> (rh == th || y + rh == h),
            r <= rh,
            canvas.pixels@ == pasted_upto(old_px, w as int, top.pixels@, tw as int, th as int, x as int, y as int, r as int, 0),
        decreases rh - r,
    {
        let limit: u64 = (rw as u64) * 3;
        let mut b: u64 = 0;
        while b < limit
            invariant
                limit == rw * 3,
                ttotal == top.pixels@.len(),
                canvas.wf(),
                canvas.width == w,
                canvas.height == h,
                top.wf(),
                top.width == tw,
                top.height == th,
                total == canvas.pixels@.len(),
                old_px.len() == total,
                rw <= tw,
                rh <= th,
                rw > 0 ==> x + rw <= w,
                y + rh <= h,
                r < rh,
                b <= rw * 3,
                canvas.pixels@ == pasted_upto(old_px, w as int, top.pixels@, tw as int, th as int, x as int, y as int, r as int, b as int),
            decreases rw * 3 - b,
        {
            let col = (b / 3) as u32;
            let c = (b % 3) as usize;
            let cy = (y + r) as usize;
            let cxx = (x + col) as usize;
            proof {
                lemma_pixel_index(w as int, h as int, cxx as int, cy as int, c as int);
                lemma_pixel_index(tw as int, th as int, col as int, r as int, c as int);
                lemma_decompose(w as int, cxx as int, cy as int, c as int);
            }
            let ci = (cy * (w as usize) + cxx) * 3 + c;
            let ti = ((r as usize) * (tw as usize) + (col as usize)) * 3 + c;
            let v = top.pixels[ti];
            canvas.pixels.set(ci, v);
            proof {
                let want = pasted_upto(old_px, w as int, top.pixels@, tw as int, th as int, x as int, y as int, r as int, b as int + 1);
                assert forall|k: int| 0 <= k < total implies #[trigger] canvas.pixels@[k] == want[k] by {
                    if k != ci {
                        let p = k / 3;
                        let kx = p % (w as int);
                        let ky = p / (w as int);
                        if in_paste(p, w as int, x as int, y as int, tw as int, th as int) && ky - y == r && (kx - x) * 3 + k % 3 == b {
                            assert(k == (ky * w + kx) * 3 + k % 3) by (nonlinear_arith)
                                requires
                                    p == k / 3,
                                    kx == p % (w as int),
                                    ky == p / (w as int),
                                    w > 0,
                                    k >= 0,
                            ;
                            assert(kx == cxx && k % 3 == c as int) by (nonlinear_arith)
                                requires
                                    (kx - x) * 3 + k % 3 == b,
                                    0 <= k % 3 < 3,
                                    col as int == b / 3,
                                    c as int == b % 3,
                                    cxx as int == x + col,
                            ;
                        }
                    }
                }
                assert(canvas.pixels@ =~= want);
            }
            b = b + 1;
        }
        proof {
            let a = pasted_upto(old_px, w as int, top.pixels@, tw as int, th as int, x as int, y as int, r as int, rw as int * 3);
            let z = pasted_upto(old_px, w as int, top.pixels@, tw as int, th as int, x as int, y as int, r as int + 1, 0);
            assert forall|k: int| 0 <= k < total implies #[trigger] a[k] == z[k] by {
                let p = k / 3;
                let kx = p % (w as int);
                let ky = p / (w as int);
                if in_paste(p, w as int, x as int, y as int, tw as int, th as int) && ky - y == r {
                    assert(kx < x + rw) by {
                        if rw < tw {
                            assert(kx < w);
                        }
                    }
                }
            }
            assert(a =~= z);
        }
        r = r + 1;
    }
    proof {
        let a = pasted_upto(old_px, w as int, top.pixels@, tw as int, th as int, x as int, y as int, rh as int, 0);
        let z = pasted(old_px, w as int, top.pixels@, tw as int, th as int, x as int, y as int);
        assert forall|k: int| 0 <= k < total implies #[trigger] a[k] == z[k] by {
            let p = k / 3;
            let ky = p / (w as int);
            if in_paste(p, w as int, x as int, y as int, tw as int, th as int) {
                assert(ky < h) by (nonlinear_arith)
                    requires
                        p == k / 3,
                        ky == p / (w as int),
                        0 <= k < w as int * h as int * 3,
                        w > 0,
                ;
                assert(ky - y < rh);
            }
        }
        assert(a =~= z);
    }
}

// ---------------------------------------------------------------------------------------
// Resizing, encoding, and the collage
// ---------------------------------------------------------------------------------------

/// JPEG quality for re-encoded images: high enough to avoid visible artifacts on album art,
/// low enough to keep the book small.
pub const JPEG_QUALITY: u8 = 82;

/// `imageops::resize` with `FilterType::Lanczos3`. Claimed: the result is an RGB image `width`
/// by `height`, three bytes a pixel. Its pixels are left unsaid: the Lanczos kernel goes
/// through `f32::sin`, whose precision std leaves open, so the same image may resample to
/// different bytes on different machines. The sizes stay within what can be allocated, its
/// intermediate image included.
#[verifier::external_body]
fn resize(image: &Raster, width: u32, height: u32) -> (r: Raster)
    requires
        image.wf(),
        width as int * height as int * 3 <= usize::MAX,
        image.width as int * height as int * 4 <= usize::MAX,
    ensures
        r.wf(),
        r.width == width,
        r.height == height,
{
    let source = image::RgbImage::from_raw(image.width, image.height, image.pixels.clone()).unwrap();
    let out = image::imageops::resize(&source, width, height, image::imageops::FilterType::Lanczos3);
    Raster { width: out.width(), height: out.height(), pixels: out.into_raw() }
}

/// The bytes of the JPEG `image`'s encoder makes of an RGB image at a quality; none when it
/// refuses the image.
pub uninterp spec fn jpeg_encoded(pixels: Seq<u8>, width: u32, height: u32, quality: u8) -> Option<Seq<u8>>;

/// `JpegEncoder::new_with_quality(..).encode_image(..)`. Claimed: the bytes, or the refusal,
/// are a function of the image and the quality alone.
#[verifier::external_body]
fn encode_jpeg(image: &Raster, quality: u8) -> (r: Option<Vec<u8>>)
    requires
        image.wf(),
    ensures
        match r {
            Some(b) => jpeg_encoded(image.pixels@, image.width, image.height, quality) == Some(b@),
            None => jpeg_encoded(image.pixels@, image.width, image.height, quality) is None,
        },
{
    let source = image::RgbImage::from_raw(image.width, image.height, image.pixels.clone()).unwrap();
    let mut bytes = Vec::new();
    match image::codecs::jpeg::JpegEncoder::new_with_quality(&mut bytes, quality).encode_image(&source) {
        Ok(()) => Some(bytes),
        Err(_) => None,
    }
}

/// The size an image is scaled to before it is cropped to a `cw` by `ch` cell: the axis that
/// needs the most magnification sets the scale, so the image covers the cell.
pub open spec fn spec_fill_size(width: u32, height: u32, cw: u32, ch: u32) -> (u32, u32) {
    let w = max1(width);
    let h = max1(height);
    if w as int * ch as int >= h as int * cw as int {
        let sw = spec_scale(w, ch, h);
        (if sw < cw { cw } else { sw }, ch)
    } else {
        let sh = spec_scale(h, cw, w);
        (cw, if sh < ch { ch } else { sh })
    }
}

/// Whether filling a cell from an image stays within what can be allocated.
pub open spec fn fill_fits(width: u32, height: u32, cw: u32, ch: u32) -> bool {
    let (sw, sh) = spec_fill_size(width, height, cw, ch);
    &&& sw as int * sh as int * 3 <= usize::MAX
    &&& width as int * sh as int * 4 <= usize::MAX
}

/// The middle `cw` by `ch` of `scaled`, the image a `width` by `height` one is scaled to for
/// filling such a cell: the overflow cropped off equally on both sides.
pub open spec fn fill_of(scaled: Seq<u8>, width: u32, height: u32, cw: u32, ch: u32) -> Seq<u8> {
    let (sw, sh) = spec_fill_size(width, height, cw, ch);
    let (cx, cy, w, h) = crop_bounds(sw, sh, ((sw - cw) / 2) as u32, ((sh - ch) / 2) as u32, cw, ch);
    cropped(scaled, sw as int, cx as int, cy as int, w as int, h as int)
}

/// Whether `out` is what filling a `cw` by `ch` cell makes of a `width` by `height` image: the
/// image scaled to cover the cell (to `spec_fill_size`), then cropped to the cell's middle.
/// The scaled pixels are the resampler's, and are not pinned down.
pub open spec fn is_fill_of(out: Seq<u8>, width: u32, height: u32, cw: u32, ch: u32) -> bool {
    let (sw, sh) = spec_fill_size(width, height, cw, ch);
    exists|scaled: Seq<u8>| scaled.len() == sw as int * sh as int * 3 && out == #[trigger] fill_of(scaled, width, height, cw, ch)
}

/// Scale `image` to completely cover a `cell_width` by `cell_height` cell, then crop the
/// overflow off center: the "fill, don't letterbox" rule that keeps a collage grid gapless.
pub fn fill_cell(image: &Raster, cell_width: u32, cell_height: u32) -> (r: Raster)
    requires
        image.wf(),
        cell_width >= 1,
        cell_height >= 1,
        fill_fits(image.width, image.height, cell_width, cell_height),
    ensures
        r.wf(),
        r.width == cell_width,
        r.height == cell_height,
        is_fill_of(r.pixels@, image.width, image.height, cell_width, cell_height),
{
    let width = if image.width < 1 {
        1
    } else {
        image.width
    };
    let height = if image.height < 1 {
        1
    } else {
        image.height
    };
    assert(width as int * cell_height as int <= 0xffff_ffff * 0xffff_ffff) by (nonlinear_arith)
        requires
            width <= 0xffff_ffff,
            cell_height <= 0xffff_ffff,
    ;
    assert(height as int * cell_width as int <= 0xffff_ffff * 0xffff_ffff) by (nonlinear_arith)
        requires
            height <= 0xffff_ffff,
            cell_width <= 0xffff_ffff,
    ;
    let by_height = (width as u64) * (cell_height as u64) >= (height as u64) * (cell_width as u64);
    let (sw, sh) = if by_height {
        let s = scale(width, cell_height, height);
        (if s < cell_width {
            cell_width
        } else {
            s
        }, cell_height)
    } else {
        let s = scale(height, cell_width, width);
        (cell_width, if s < cell_height {
            cell_height
        } else {
            s
        })
    };
    let scaled = resize(image, sw, sh);
    let x = (sw - cell_width) / 2;
    let y = (sh - cell_height) / 2;
    let r = crop(&scaled, x, y, cell_width, cell_height);
    proof {
        assert(r.pixels@ == fill_of(scaled.pixels@, image.width, image.height, cell_width, cell_height));
    }
    r
}

/// Bytes, or none, as plain values.
pub open spec fn opt_bytes(r: Option<Vec<u8>>) -> Option<Seq<u8>> {
    match r {
        Some(b) => Some(b@),
        None => None,
    }
}

/// Whether `r` is a thumbnail of the album art `pixels`, `width` by `height`: the JPEG of the
/// art itself when its longest edge is at most `max_edge`, else the JPEG of some image
/// scaled down to `spec_fit_within` (the resampled pixels are the resampler's); none when the
/// encoder refuses.
pub open spec fn is_thumbnail_of(r: Option<Seq<u8>>, pixels: Seq<u8>, width: u32, height: u32, max_edge: u32) -> bool {
    let (w, h) = spec_fit_within(width, height, max_edge);
    if w == width && h == height {
        r == jpeg_encoded(pixels, width, height, JPEG_QUALITY)
    } else {
        exists|px: Seq<u8>| px.len() == w as int * h as int * 3 && r == #[trigger] jpeg_encoded(px, w, h, JPEG_QUALITY)
    }
}

/// Downscale decoded album art and re-encode it as JPEG for embedding.
pub fn thumbnail(image: Raster, max_edge: u32) -> (r: Option<Vec<u8>>)
    requires
        image.wf(),
        max1(image.width) as int * max1(image.height) as int * 4 <= usize::MAX,
    ensures
        is_thumbnail_of(opt_bytes(r), image.pixels@, image.width, image.height, max_edge),
{
    let (width, height) = fit_within(image.width, image.height, max_edge);
    if width == image.width && height == image.height {
        encode_jpeg(&image, JPEG_QUALITY)
    } else {
        proof {
            lemma_fit_within_shrinks(image.width, image.height, max_edge);
            let mw = max1(image.width);
            let mh = max1(image.height);
            assert(width as int * height as int <= mw as int * mh as int) by (nonlinear_arith)
                requires
                    width <= mw,
                    height <= mh,
            ;
            assert(image.width as int * height as int <= mw as int * mh as int) by (nonlinear_arith)
                requires
                    height <= mh,
                    image.width <= mw,
            ;
        }
        let resized = resize(&image, width, height);
        let r = encode_jpeg(&resized, JPEG_QUALITY);
        proof {
            assert(opt_bytes(r) == jpeg_encoded(resized.pixels@, width, height, JPEG_QUALITY));
        }
        r
    }
}

proof fn lemma_scale_down(v: u32, n: u32, d: u32)
    requires
        d > 0,
        n <= d,
    ensures
        spec_scale(v, n, d) <= v,
{
    assert(v as int * n as int / d as int <= v) by (nonlinear_arith)
        requires
            0 <= n <= d,
            d > 0,
            v >= 0,
    ;
}

/// A thumbnail is never larger than the image it comes from.
pub proof fn lemma_fit_within_shrinks(width: u32, height: u32, max_edge: u32)
    ensures
        spec_fit_within(width, height, max_edge).0 <= max1(width),
        spec_fit_within(width, height, max_edge).1 <= max1(height),
{
    let longest = if width >= height { width } else { height };
    if !(longest <= max_edge || longest == 0) {
        lemma_scale_down(width, max_edge, longest);
        lemma_scale_down(height, max_edge, longest);
    }
}

/// The dark plate color a cover falls back to, and the title plate is filled with.
pub const PLATE_RGB: (u8, u8, u8) = (20, 20, 26);

proof fn lemma_picks_nonempty(len: nat, count: nat, k: nat)
    requires
        0 < count < len,
        k >= 1,
    ensures
        picks_upto(len, count, k).len() >= 1,
    decreases k,
{
    if k == 1 {
        let d = sat_usize(count as int * 2);
        assert(d >= 2);
        assert(sat_usize(0int * 2) == 0);
        assert(sat_usize(sat_usize(0int * 2) + 1) == 1);
        assert(sat_usize(1 * len as int) <= len);
        assert(pick_index(0, len as int, count as int) < len) by (nonlinear_arith)
            requires
                pick_index(0, len as int, count as int) == sat_usize(1 * len as int) / d,
                sat_usize(1 * len as int) <= len,
                sat_usize(1 * len as int) >= 0,
                d >= 2,
                len > 0,
        ;
    } else {
        lemma_picks_nonempty(len, count, (k - 1) as nat);
    }
}

/// An image as plain values: its pixels, width and height.
pub open spec fn raster_views(v: Seq<Raster>) -> Seq<(Seq<u8>, u32, u32)> {
    v.map_values(|r: Raster| (r.pixels@, r.width, r.height))
}

/// The cell size of the collage grid for `n` images.
pub open spec fn cell_size(n: usize) -> (u32, u32) {
    let (cols, rows) = spec_grid_for(n);
    ((COVER_WIDTH / cols) as u32, (COVER_HEIGHT / rows) as u32)
}

/// The canvas after the first `k` cells of the grid, row by row, have had their tile
/// painted in: cell `j` gets tile `j` (cycling when there are fewer tiles than cells).
pub open spec fn painted(base: Seq<u8>, tiles: Seq<Seq<u8>>, cols: int, cw: int, ch: int, k: int) -> Seq<u8>
    decreases k,
{
    if k <= 0 {
        base
    } else {
        let j = k - 1;
        pasted(painted(base, tiles, cols, cw, ch, j), COVER_WIDTH as int, tiles[j % tiles.len() as int], cw, ch, (j % cols) * cw, (j / cols) * ch)
    }
}

/// The collage made of `tiles` for `n` images: each cell of the grid for `n`, row by row, gets
/// the next tile (cycling), and the canvas is darkened.
pub open spec fn collage_of_tiles(n: nat, tiles: Seq<Seq<u8>>) -> Seq<u8> {
    let (cols, rows) = spec_grid_for(n as usize);
    let (cw, ch) = cell_size(n as usize);
    let base = Seq::new((COVER_WIDTH * COVER_HEIGHT * 3) as nat, |k: int| 0u8);
    let canvas = painted(base, tiles, cols as int, cw as int, ch as int, cols * rows);
    Seq::new(canvas.len(), |k: int| dimmed(canvas[k]))
}

/// Whether `tiles` are the collage's cells for `decoded`: one for each image picked evenly
/// for the grid, in order, each a fill of its cell from that image.
pub open spec fn collage_tiles(decoded: Seq<(Seq<u8>, u32, u32)>, tiles: Seq<Seq<u8>>) -> bool {
    let n = decoded.len();
    let (cols, rows) = spec_grid_for(n as usize);
    let (cw, ch) = cell_size(n as usize);
    let picks = picked_indices(n, (cols * rows) as nat);
    &&& tiles.len() == picks.len()
    &&& forall|t: int| 0 <= t < tiles.len() ==> is_fill_of(#[trigger] tiles[t], decoded[picks[t]].1, decoded[picks[t]].2, cw, ch)
}

/// Whether `px` is a collage of the `decoded` images: a grid sized to how many there are, each
/// cell filled with an image spread evenly over them, darkened. There is none of no images.
pub open spec fn is_collage_of(decoded: Seq<(Seq<u8>, u32, u32)>, px: Seq<u8>) -> bool {
    &&& decoded.len() > 0
    &&& exists|tiles: Seq<Seq<u8>>| #[trigger] collage_tiles(decoded, tiles) && px == collage_of_tiles(decoded.len(), tiles)
}

/// Build the cover collage from the decoded album art: a gapless grid, darkened.
///
/// The grid is sized to how many images there are, so a small library gets a small grid of
/// distinct albums rather than the same handful tiled over and over. None for no images.
pub fn collage(decoded: &Vec<Raster>) -> (r: Option<Raster>)
    requires
        forall|i: int| 0 <= i < decoded@.len() ==> (#[trigger] decoded@[i]).wf() && fill_fits(
            decoded@[i].width,
            decoded@[i].height,
            cell_size(decoded@.len() as usize).0,
            cell_size(decoded@.len() as usize).1,
        ),
    ensures
        match r {
            Some(c) => c.wf() && c.width == COVER_WIDTH && c.height == COVER_HEIGHT && is_collage_of(raster_views(decoded@), c.pixels@),
            None => decoded@.len() == 0,
        },
{
    let n = decoded.len();
    if n == 0 {
        return None;
    }
    let ghost dv = raster_views(decoded@);
    let (cols, rows) = grid_for(n);
    proof {
        lemma_grid_never_asks_for_more_images(n);
        assert(cols <= 8);
        assert(cols as int * rows as int <= 96);
        assert(rows as int <= 96) by (nonlinear_arith)
            requires
                cols >= 1,
                cols as int * rows as int <= 96,
        ;
    }
    let cw = COVER_WIDTH / cols;
    let ch = COVER_HEIGHT / rows;
    assert(cw >= 1 && ch >= 1) by (nonlinear_arith)
        requires
            1 <= cols <= 8,
            1 <= rows <= 96,
            cw as int == 1600int / (cols as int),
            ch as int == 2400int / (rows as int),
    ;
    let cells = (cols as usize) * (rows as usize);
    let mut all: Vec<usize> = Vec::new();
    let mut i: usize = 0;
    while i < n
        invariant
            i <= n,
            n == decoded@.len(),
            all@.len() == i,
            forall|j: int| 0 <= j < i ==> #[trigger] all@[j] == j,
        decreases n - i,
    {
        all.push(i);
        i = i + 1;
    }
    let indices = pick_evenly(all.as_slice(), cells);
    let ghost picks = picked_indices(n as nat, cells as nat);
    proof {
        assert(cells >= 1) by (nonlinear_arith)
            requires
                cols >= 1,
                rows >= 1,
                cells as int == cols as int * rows as int,
        ;
        if n > cells {
            lemma_picks_upto_in_range(n as nat, cells as nat, cells as nat);
            lemma_picks_nonempty(n as nat, cells as nat, cells as nat);
        }
        assert(picks.len() >= 1);
    }
    let mut tiles: Vec<Raster> = Vec::new();
    let mut t: usize = 0;
    while t < indices.len()
        invariant
            n == decoded@.len(),
            dv == raster_views(decoded@),
            all@.len() == n,
            forall|j: int| 0 <= j < n ==> #[trigger] all@[j] == j,
            indices@.len() == picks.len(),
            picks == picked_indices(n as nat, cells as nat),
            forall|k: int| 0 <= k < picks.len() ==> 0 <= #[trigger] picks[k] < n,
            forall|k: int| 0 <= k < indices@.len() ==> cloned(all@[picks[k]], #[trigger] indices@[k]),
            forall|j: int| 0 <= j < decoded@.len() ==> (#[trigger] decoded@[j]).wf() && fill_fits(decoded@[j].width, decoded@[j].height, cw, ch),
            cw >= 1,
            ch >= 1,
            (cw, ch) == cell_size(n),
            t <= indices.len(),
            tiles@.len() == t,
            forall|k: int| 0 <= k < t ==> (#[trigger] tiles@[k]).wf() && tiles@[k].width == cw && tiles@[k].height == ch && is_fill_of(tiles@[k].pixels@, dv[picks[k]].1, dv[picks[k]].2, cw, ch),
        decreases indices.len() - t,
    {
        let k = indices[t];
        proof {
            assert(cloned(all@[picks[t as int]], indices@[t as int]));
            assert(all@[picks[t as int]] == picks[t as int]);
            assert(k == picks[t as int]);
        }
        let tile = fill_cell(&decoded[k], cw, ch);
        tiles.push(tile);
        t = t + 1;
    }
    if tiles.len() == 0 {
        return None;
    }
    let ghost tv = tiles@.map_values(|r: Raster| r.pixels@);
    let mut canvas = Raster::filled(COVER_WIDTH, COVER_HEIGHT, (0, 0, 0));
    let ghost base = Seq::new((COVER_WIDTH * COVER_HEIGHT * 3) as nat, |k: int| 0u8);
    proof {
        assert(canvas.pixels@ =~= base);
    }
    let mut row: u32 = 0;
    while row < rows
        invariant
            canvas.wf(),
            canvas.width == COVER_WIDTH,
            canvas.height == COVER_HEIGHT,
            tiles@.len() == tv.len(),
            tiles@.len() > 0,
            forall|k: int| 0 <= k < tiles@.len() ==> (#[trigger] tiles@[k]).wf() && tiles@[k].width == cw && tiles@[k].height == ch && tiles@[k].pixels@ == tv[k],
            1 <= cols <= 8,
            cols as int * rows as int <= 96,
            1 <= cw <= COVER_WIDTH,
            1 <= ch <= COVER_HEIGHT,
            rows <= 96,
            row <= rows,
            canvas.pixels@ == painted(base, tv, cols as int, cw as int, ch as int, row * cols),
        decreases rows - row,
    {
        let mut col: u32 = 0;
        while col < cols
            invariant
                canvas.wf(),
                canvas.width == COVER_WIDTH,
                canvas.height == COVER_HEIGHT,
                tiles@.len() == tv.len(),
                tiles@.len() > 0,
                forall|k: int| 0 <= k < tiles@.len() ==> (#[trigger] tiles@[k]).wf() && tiles@[k].width == cw && tiles@[k].height == ch && tiles@[k].pixels@ == tv[k],
                1 <= cols <= 8,
                cols as int * rows as int <= 96,
                1 <= cw <= COVER_WIDTH,
                1 <= ch <= COVER_HEIGHT,
                rows <= 96,
                row < rows,
                col <= cols,
                canvas.pixels@ == painted(base, tv, cols as int, cw as int, ch as int, row * cols + col),
            decreases cols - col,
        {
            assert(row as int * cols as int + col < 96) by (nonlinear_arith)
                requires
                    row < rows,
                    col < cols,
                    cols as int * rows as int <= 96,
            ;
            let j = (row as usize) * (cols as usize) + (col as usize);
            let which = j % tiles.len();
            assert(col as int * cw as int <= 8 * 1600) by (nonlinear_arith)
                requires
                    col < 8,
                    cw <= 1600,
            ;
            assert(row as int * ch as int <= 96 * 2400) by (nonlinear_arith)
                requires
                    row < 96,
                    ch <= 2400,
            ;
            let x = col * cw;
            let y = row * ch;
            proof {
                let jj = row * cols + col;
                vstd::arithmetic::div_mod::lemma_fundamental_div_mod_converse(jj, cols as int, row as int, col as int);
            }
            paste(&mut canvas, &tiles[which], x, y);
            col = col + 1;
        }
        proof {
            assert(row * cols + cols == (row + 1) * cols) by (nonlinear_arith);
        }
        row = row + 1;
    }
    let ghost painted_px = canvas.pixels@;
    dim(&mut canvas);
    proof {
        assert(rows * cols == cols * rows) by (nonlinear_arith);
        assert(painted_px == painted(base, tv, cols as int, cw as int, ch as int, cols * rows));
        assert(cells as nat == (cols * rows) as nat);
        assert((cw, ch) == cell_size(n));
        assert(canvas.pixels@ =~= Seq::new(painted_px.len(), |k: int| dimmed(painted_px[k])));
        assert(collage_tiles(dv, tv));
        assert(canvas.pixels@ == collage_of_tiles(n as nat, tv));
    }
    Some(canvas)
}

/// The cover before its title is drawn: the collage of the album art, or, when none of it
/// could be decoded, a plain dark canvas, so a book always has a cover.
pub fn cover_canvas(decoded: &Vec<Raster>) -> (r: Raster)
    requires
        forall|i: int| 0 <= i < decoded@.len() ==> (#[trigger] decoded@[i]).wf() && fill_fits(
            decoded@[i].width,
            decoded@[i].height,
            cell_size(decoded@.len() as usize).0,
            cell_size(decoded@.len() as usize).1,
        ),
    ensures
        r.wf(),
        r.width == COVER_WIDTH,
        r.height == COVER_HEIGHT,
        decoded@.len() > 0 ==> is_collage_of(raster_views(decoded@), r.pixels@),
        decoded@.len() == 0 ==> forall|k: int| 0 <= k < r.pixels@.len() ==> #[trigger] r.pixels@[k] == if k % 3 == 0 {
            PLATE_RGB.0
        } else if k % 3 == 1 {
            PLATE_RGB.1
        } else {
            PLATE_RGB.2
        },
{
    match collage(decoded) {
        Some(c) => c,
        None => Raster::filled(COVER_WIDTH, COVER_HEIGHT, PLATE_RGB),
    }
}

/// The finished cover, title drawn, as the JPEG the book embeds; none if the encoder refuses.
pub fn cover_jpeg(canvas: &Raster) -> (r: Option<Vec<u8>>)
    requires
        canvas.wf(),
    ensures
        match r {
            Some(b) => jpeg_encoded(canvas.pixels@, canvas.width, canvas.height, JPEG_QUALITY) == Some(b@),
            None => jpeg_encoded(canvas.pixels@, canvas.width, canvas.height, JPEG_QUALITY) is None,
        },
{
    encode_jpeg(canvas, JPEG_QUALITY)
}

/// What the `image` crate decodes `bytes` into, as RGB: the pixels, the width, the height;
/// none when it cannot make out an image.
pub uninterp spec fn decoded_image(bytes: Seq<u8>) -> Option<(Seq<u8>, u32, u32)>;

/// `image::ImageReader` with the format guessed from the bytes, then `to_rgb8`. The contract
/// claims only that the result is the one named for these bytes, and that the pixel buffer of
/// the RGB image holds three bytes for each pixel, as `ImageBuffer` keeps it.
#[verifier::external_body]
fn decode_image(bytes: &[u8]) -> (r: Option<Raster>)
    ensures
        match r {
            Some(img) => img.wf() && decoded_image(bytes@) == Some((img.pixels@, img.width, img.height)),
            None => decoded_image(bytes@) is None,
        },
{
    let reader = match image::ImageReader::new(std::io::Cursor::new(bytes)).with_guessed_format() {
        Ok(reader) => reader,
        Err(_) => return None,
    };
    match reader.decode() {
        Ok(img) => {
            let rgb = img.to_rgb8();
            Some(Raster { width: rgb.width(), height: rgb.height(), pixels: rgb.into_raw() })
        },
        Err(_) => None,
    }
}

/// Whether a thumbnail of a `width` by `height` image can be made within what can be
/// allocated.
pub open spec fn thumbnail_fits(width: u32, height: u32) -> bool {
    max1(width) as int * max1(height) as int * 4 <= usize::MAX
}

/// The thumbnail of an album-art file's contents: decoded, downscaled and re-encoded; none
/// when it does not decode, is too large to work on, or the encoder refuses it.
pub fn art_thumbnail(bytes: &[u8], max_edge: u32) -> (r: Option<Vec<u8>>)
    ensures
        match decoded_image(bytes@) {
            Some((px, w, h)) => if thumbnail_fits(w, h) {
                is_thumbnail_of(opt_bytes(r), px, w, h, max_edge)
            } else {
                r is None
            },
            None => r is None,
        },
{
    let image = match decode_image(bytes) {
        Some(image) => image,
        None => return None,
    };
    let w: u64 = if image.width < 1 { 1 } else { image.width as u64 };
    let h: u64 = if image.height < 1 { 1 } else { image.height as u64 };
    let fits = match w.checked_mul(h) {
        Some(p) => match p.checked_mul(4) {
            Some(q) => (q as u128) <= (usize::MAX as u128),
            None => false,
        },
        None => false,
    };
    if !fits {
        return None;
    }
    thumbnail(image, max_edge)
}

pub open spec fn decoded_some(files: Seq<Seq<u8>>) -> Seq<(Seq<u8>, u32, u32)>
    decreases files.len(),
{
    if files.len() == 0 {
        seq![]
    } else {
        match decoded_image(files.last()) {
            Some(d) => decoded_some(files.drop_last()).push(d),
            None => decoded_some(files.drop_last()),
        }
    }
}

pub open spec fn byte_views(v: Seq<Vec<u8>>) -> Seq<Seq<u8>> {
    v.map_values(|b: Vec<u8>| b@)
}

/// The images among the given files' contents that decode, in order; the others are
/// skipped.
pub fn decode_all(files: &Vec<Vec<u8>>) -> (r: Vec<Raster>)
    ensures
        raster_views(r@) == decoded_some(byte_views(files@)),
        forall|i: int| 0 <= i < r@.len() ==> (#[trigger] r@[i]).wf(),
{
    let ghost fv = byte_views(files@);
    let mut out: Vec<Raster> = Vec::new();
    let mut i: usize = 0;
    while i < files.len()
        invariant
            fv == byte_views(files@),
            i <= files.len(),
            raster_views(out@) == decoded_some(fv.take(i as int)),
            forall|k: int| 0 <= k < out@.len() ==> (#[trigger] out@[k]).wf(),
        decreases files.len() - i,
    {
        proof {
            assert(fv.take(i as int + 1).drop_last() =~= fv.take(i as int));
            assert(fv[i as int] == files@[i as int]@);
        }
        let ghost before = raster_views(out@);
        match decode_image(files[i].as_slice()) {
            Some(img) => {
                out.push(img);
                proof {
                    assert(raster_views(out@) =~= before.push((out@.last().pixels@, out@.last().width, out@.last().height)));
                }
            },
            None => {},
        }
        i = i + 1;
    }
    proof {
        assert(fv.take(files.len() as int) =~= fv);
    }
    out
}

/// Whether every image can be filled into a collage cell within what can be allocated.
pub open spec fn collage_fits(decoded: Seq<Raster>) -> bool {
    forall|i: int| 0 <= i < decoded.len() ==> (#[trigger] decoded[i]).wf() && fill_fits(
        decoded[i].width,
        decoded[i].height,
        cell_size(decoded.len() as usize).0,
        cell_size(decoded.len() as usize).1,
    )
}

fn mul_wide(a: u32, b: u32) -> (r: u64)
    ensures
        r == a as int * b as int,
{
    assert(a as int * b as int <= 0xffff_ffff * 0xffff_ffff) by (nonlinear_arith)
        requires
            a <= 0xffff_ffff,
            b <= 0xffff_ffff,
    ;
    (a as u64) * (b as u64)
}

fn fill_fits_exec(width: u32, height: u32, cw: u32, ch: u32) -> (r: bool)
    ensures
        r == fill_fits(width, height, cw, ch),
{
    let w: u64 = if width < 1 { 1 } else { width as u64 };
    let h: u64 = if height < 1 { 1 } else { height as u64 };
    let (sw, sh): (u64, u64) = if mul_wide(w as u32, ch) >= mul_wide(h as u32, cw) {
        let s = scale(w as u32, ch, h as u32) as u64;
        (if s < cw as u64 { cw as u64 } else { s }, ch as u64)
    } else {
        let s = scale(h as u32, cw, w as u32) as u64;
        (cw as u64, if s < ch as u64 { ch as u64 } else { s })
    };
    proof {
        assert(sw as int * sh as int * 3 <= 0xffff_ffff * 0xffff_ffff * 3) by (nonlinear_arith)
            requires
                sw <= 0xffff_ffff,
                sh <= 0xffff_ffff,
        ;
        assert(width as int * sh as int * 4 <= 0xffff_ffff * 0xffff_ffff * 4) by (nonlinear_arith)
            requires
                width <= 0xffff_ffff,
                sh <= 0xffff_ffff,
        ;
    }
    (sw as u128) * (sh as u128) * 3 <= (usize::MAX as u128) && (width as u128) * (sh as u128) * 4 <= (usize::MAX as u128)
}

/// The cover before its title is drawn, for any decoded images: the collage when every image
/// can be worked on, else the plain dark canvas.
pub fn cover_base(decoded: &Vec<Raster>) -> (r: Raster)
    ensures
        r.wf(),
        r.width == COVER_WIDTH,
        r.height == COVER_HEIGHT,
        collage_fits(decoded@) && decoded@.len() > 0 ==> is_collage_of(raster_views(decoded@), r.pixels@),
        !collage_fits(decoded@) || decoded@.len() == 0 ==> forall|k: int| 0 <= k < r.pixels@.len() ==> #[trigger] r.pixels@[k] == if k % 3 == 0 {
            PLATE_RGB.0
        } else if k % 3 == 1 {
            PLATE_RGB.1
        } else {
            PLATE_RGB.2
        },
{
    let n = decoded.len();
    if n == 0 {
        return cover_canvas(decoded);
    }
    let (cols, rows) = grid_for(n);
    proof {
        lemma_grid_never_asks_for_more_images(n);
    }
    let cw = COVER_WIDTH / cols;
    let ch = COVER_HEIGHT / rows;
    let mut i: usize = 0;
    while i < n
        invariant
            n == decoded@.len(),
            (cw, ch) == cell_size(n),
            i <= n,
            forall|k: int| 0 <= k < i ==> (#[trigger] decoded@[k]).wf() && fill_fits(decoded@[k].width, decoded@[k].height, cw, ch),
        decreases n - i,
    {
        let img = &decoded[i];
        let area = mul_wide(img.width, img.height) as u128;
        if img.pixels.len() as u128 != area * 3 || !fill_fits_exec(img.width, img.height, cw, ch) {
            let empty: Vec<Raster> = Vec::new();
            proof {
                assert(!collage_fits(decoded@));
            }
            return cover_canvas(&empty);
        }
        i = i + 1;
    }
    cover_canvas(decoded)
}

} // verus!
