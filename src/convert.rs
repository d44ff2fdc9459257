//! Thresholding a grid into bits and packing them, row-aligned or continuous.
use crate::bits::{byte_count, lemma_packed_append, lemma_packed_empty, packed};
use crate::grid::{GridView, Image};
use crate::pack::{fed, lemma_fed_add, lemma_fed_flush, lemma_fed_fresh, Pack, PackState};
use vstd::prelude::*;

verus! {

/// How a conversion runs.
pub struct Settings {
    /// A sample is on when it is strictly greater than this.
    pub threshold: u8,
    /// Let bits run on across row ends instead of starting each row on a
    /// fresh byte.
    pub no_flush_after_pixel_row: bool,
}

impl Settings {
    pub fn new(threshold: u8, no_flush_after_pixel_row: bool) -> (r: Settings)
        ensures
            r.threshold == threshold,
            r.no_flush_after_pixel_row == no_flush_after_pixel_row,
    {
        Settings { threshold, no_flush_after_pixel_row }
    }
}

impl Default for Settings {
    /// Threshold 100, each row flushed.
    fn default() -> (r: Settings)
        ensures
            r.threshold == 100,
            !r.no_flush_after_pixel_row,
    {
        Settings { threshold: 100, no_flush_after_pixel_row: false }
    }
}

/// The bit of one sample: 1 when it is strictly above the threshold.
pub open spec fn bit_of(sample: u8, threshold: u8) -> u8 {
    if sample > threshold {
        1
    } else {
        0
    }
}

/// The bit of one sample: 1 when it is strictly above the threshold.
pub fn pixel_bit(sample: u8, threshold: u8) -> (r: u8)
    ensures
        r == bit_of(sample, threshold),
{
    if sample > threshold {
        1
    } else {
        0
    }
}

/// The bits of all samples, row after row.
pub open spec fn all_bits(g: GridView, threshold: u8) -> Seq<u8> {
    Seq::new(g.pixels.len(), |i: int| bit_of(g.pixels[i], threshold))
}

/// The bits of row `r`.
pub open spec fn row_bits(g: GridView, threshold: u8, r: int) -> Seq<u8> {
    Seq::new(g.width as nat, |c: int| bit_of(g.pixels[r * g.width + c], threshold))
}

/// The first `r` rows, each packed on its own.
pub open spec fn rows_packed(g: GridView, threshold: u8, r: nat) -> Seq<u8>
    decreases r,
{
    if r == 0 {
        Seq::empty()
    } else {
        rows_packed(g, threshold, (r - 1) as nat) + packed(row_bits(g, threshold, r - 1))
    }
}

/// The output for a grid: each row padded to whole bytes when `row_aligned`,
/// else all bits packed in one run.
pub open spec fn encoded(g: GridView, threshold: u8, row_aligned: bool) -> Seq<u8> {
    if row_aligned {
        rows_packed(g, threshold, g.height as nat)
    } else {
        packed(all_bits(g, threshold))
    }
}

/// Thresholds every sample of `gray_image`, in row-major order, and appends
/// the packed bits to `output`.
pub fn process_image(gray_image: &Image, output: &mut Vec<u8>, settings: &Settings)
    ensures
        final(output)@ == old(output)@ + encoded(
            gray_image@,
            settings.threshold,
            !settings.no_flush_after_pixel_row,
        ),
{
    let ghost g = gray_image@;
    let ghost t = settings.threshold;
    let row_aligned = !settings.no_flush_after_pixel_row;
    let pixels = gray_image.as_raw();
    let w = gray_image.width() as usize;
    let h = gray_image.height() as usize;
    let mut pack = Pack::new(Vec::new());
    let n = pixels.len();
    proof {
        lemma_fed_fresh(Seq::empty());
        lemma_packed_empty();
        assert(all_bits(g, t).take(0) =~= Seq::<u8>::empty());
    }
    let mut r: usize = 0;
    let mut idx: usize = 0;
    while r < h
        invariant
            g.wf(),
            pixels@ == g.pixels,
            n == pixels@.len(),
            w == g.width,
            h == g.height,
            t == settings.threshold,
            row_aligned == !settings.no_flush_after_pixel_row,
            r <= h,
            idx == r * w,
            pack.wf(),
            row_aligned ==> pack@ == PackState::fresh(rows_packed(g, t, r as nat)),
            !row_aligned ==> fed(pack@, Seq::empty(), all_bits(g, t).take(idx as int)),
        decreases h - r,
    {
        proof {
            lemma_fed_fresh(rows_packed(g, t, r as nat));
            assert(row_bits(g, t, r as int).take(0) =~= Seq::<u8>::empty());
            assert(idx + w <= w * h) by (nonlinear_arith)
                requires
                    idx == r * w,
                    r < h,
            ;
        }
        let mut c: usize = 0;
        while c < w
            invariant
                g.wf(),
                pixels@ == g.pixels,
                n == pixels@.len(),
                w == g.width,
                h == g.height,
                t == settings.threshold,
                row_aligned == !settings.no_flush_after_pixel_row,
                r < h,
                c <= w,
                idx == r * w + c,
                idx + w - c <= w * h,
                pack.wf(),
                row_aligned ==> fed(
                    pack@,
                    rows_packed(g, t, r as nat),
                    row_bits(g, t, r as int).take(c as int),
                ),
                !row_aligned ==> fed(pack@, Seq::empty(), all_bits(g, t).take(idx as int)),
            decreases w - c,
        {
            let bit = pixel_bit(pixels[idx], settings.threshold);
            proof {
                let row = row_bits(g, t, r as int);
                let all = all_bits(g, t);
                if row_aligned {
                    lemma_fed_add(pack@, rows_packed(g, t, r as nat), row.take(c as int), bit);
                } else {
                    lemma_fed_add(pack@, Seq::empty(), all.take(idx as int), bit);
                }
                assert(row.take(c as int).push(bit) =~= row.take(c + 1));
                assert(all.take(idx as int).push(bit) =~= all.take(idx + 1));
            }
            pack.add(bit);
            c = c + 1;
            idx = idx + 1;
        }
        if row_aligned {
            proof {
                let row = row_bits(g, t, r as int);
                assert(row.take(w as int) =~= row);
                lemma_fed_flush(pack@, rows_packed(g, t, r as nat), row);
            }
            pack.flush();
        }
        proof {
            assert(idx == (r + 1) * w) by (nonlinear_arith)
                requires
                    idx == r * w + w,
            ;
        }
        r = r + 1;
    }
    proof {
        if !row_aligned {
            assert(all_bits(g, t).take(idx as int) =~= all_bits(g, t)) by {
                assert(idx == w * h) by (nonlinear_arith)
                    requires
                        idx == r * w,
                        r == h,
                ;
            }
            lemma_fed_flush(pack@, Seq::empty(), all_bits(g, t));
            assert(Seq::<u8>::empty() + packed(all_bits(g, t)) =~= packed(all_bits(g, t)));
        }
    }
    pack.flush();
    let mut bytes = pack.into_inner();
    output.append(&mut bytes);
}

proof fn lemma_rows_packed_len(g: GridView, t: u8, r: nat)
    ensures
        rows_packed(g, t, r).len() == r * byte_count(g.width as nat),
    decreases r,
{
    let q = byte_count(g.width as nat);
    if r == 0 {
        assert(r * q == 0);
    } else {
        lemma_rows_packed_len(g, t, (r - 1) as nat);
        let r1 = (r - 1) as nat;
        assert(rows_packed(g, t, r) == rows_packed(g, t, r1) + packed(row_bits(g, t, r1 as int)));
        assert(packed(row_bits(g, t, r1 as int)).len() == q);
        assert(r * q == r1 * q + q) by (nonlinear_arith)
            requires
                r1 == r - 1,
        ;
    }
}

/// With whole bytes per row, the first `r` rows packed one by one are the
/// first `r * width` bits packed in one run.
proof fn lemma_rows_packed_aligned(g: GridView, t: u8, r: nat)
    requires
        g.wf(),
        r <= g.height,
        g.width % 8 == 0,
    ensures
        rows_packed(g, t, r) == packed(all_bits(g, t).take(r * g.width)),
    decreases r,
{
    let w = g.width as nat;
    let all = all_bits(g, t);
    if r == 0 {
        lemma_packed_empty();
        assert(r * g.width == 0) by (nonlinear_arith)
            requires
                r == 0,
        ;
        assert(all.take(0) =~= Seq::<u8>::empty());
    } else {
        let r1 = (r - 1) as nat;
        lemma_rows_packed_aligned(g, t, r1);
        assert(r * w == r1 * w + w) by (nonlinear_arith)
            requires
                r1 == r - 1,
        ;
        assert(r * w <= g.height * w) by (nonlinear_arith)
            requires
                r <= g.height,
        ;
        let k = w / 8;
        assert(r1 * w == 8 * (r1 * k)) by (nonlinear_arith)
            requires
                w == 8 * k,
        ;
        assert((8 * (r1 * k)) % 8 == 0);
        assert(all.take((r * w) as int) =~= all.take((r1 * w) as int) + row_bits(g, t, r1 as int));
        lemma_packed_append(all.take((r1 * w) as int), row_bits(g, t, r1 as int));
        assert(rows_packed(g, t, r) == rows_packed(g, t, r1) + packed(row_bits(g, t, r1 as int)));
        assert(rows_packed(g, t, r1) == packed(all.take((r1 * w) as int)));
        assert(rows_packed(g, t, r) == packed(all.take((r * w) as int)));
    }
}

/// The two modes compared: continuous output takes the fewest bytes,
/// `ceil(width * height / 8)`; row-aligned output takes `ceil(width / 8)`
/// bytes per row, never fewer; and for a width that is a multiple of eight
/// the two outputs are the same bytes.
pub proof fn lemma_row_aligned_vs_continuous(g: GridView, threshold: u8)
    requires
        g.wf(),
    ensures
        encoded(g, threshold, false).len() == byte_count(g.width as nat * g.height as nat),
        encoded(g, threshold, true).len() == g.height as nat * byte_count(g.width as nat),
        encoded(g, threshold, true).len() >= encoded(g, threshold, false).len(),
        g.width % 8 == 0 ==> encoded(g, threshold, true) == encoded(g, threshold, false),
{
    let w = g.width as nat;
    let h = g.height as nat;
    lemma_rows_packed_len(g, threshold, h);
    let q = byte_count(w);
    assert(h * q >= byte_count(w * h)) by (nonlinear_arith)
        requires
            q == (w + 7) / 8,
    ;
    if w % 8 == 0 {
        lemma_rows_packed_aligned(g, threshold, h);
        assert(all_bits(g, threshold).take((h * w) as int) =~= all_bits(g, threshold)) by {
            assert(h * w == w * h) by (nonlinear_arith);
        }
    }
}

/// Row-aligned output is strictly longer than continuous output exactly when
/// the padding bits of all rows together, `height * (8 - width % 8)`, fill at
/// least one byte; in particular whenever `width` is not a multiple of eight
/// and there are eight rows or more.
pub proof fn lemma_row_aligned_longer(g: GridView, threshold: u8)
    requires
        g.wf(),
        g.width % 8 != 0,
        g.height * (8 - g.width % 8) >= 8,
    ensures
        encoded(g, threshold, true).len() > encoded(g, threshold, false).len(),
{
    lemma_row_aligned_vs_continuous(g, threshold);
    let w = g.width as nat;
    let h = g.height as nat;
    let q = byte_count(w);
    let pad = (8 - w % 8) as nat;
    assert(8 * q == w + pad);
    assert(h * q > byte_count(w * h)) by (nonlinear_arith)
        requires
            8 * q == w + pad,
            h * pad >= 8,
    ;
}

} // verus!
