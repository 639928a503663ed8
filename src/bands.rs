use vstd::prelude::*;

verus! {

/// Grey level of a pixel whose point escaped after `count` iterations.
pub open spec fn shade_of(escape: Option<u32>) -> u8 {
    match escape {
        None => 0u8,
        Some(count) => if count >= 255 { 0u8 } else { (255 - count) as u8 },
    }
}

/// Turns an escape result into a grey level: `0` for a point that never
/// escaped, `255 - min(count, 255)` for one that escaped after `count` steps.
pub fn shade(escape: Option<u32>) -> (r: u8)
    ensures
        r == shade_of(escape),
{
    match escape {
        None => 0,
        Some(count) => if count >= 255 { 0 } else { (255 - count) as u8 },
    }
}

/// A horizontal slice of the image: `rows` rows starting at row `top`.
#[derive(Clone, Copy, Debug, PartialEq, Eq, Structural)]
pub struct Band {
    pub top: usize,
    pub rows: usize,
}

/// Rows in each band when `height` rows are shared among `threads` workers:
/// the ceiling of `height / threads`.
pub open spec fn rows_per_band_spec(height: int, threads: int) -> int {
    (height + threads - 1) / threads
}

/// Number of bands of `per_band` rows (the last one shorter) that `height`
/// rows make.
pub open spec fn band_count(height: int, per_band: int) -> int {
    if per_band <= 0 {
        0
    } else {
        (height + per_band - 1) / per_band
    }
}

/// The `i`-th band: it starts at row `i * per_band` and holds `per_band`
/// rows, or what is left of the image if fewer remain.
pub open spec fn band_at(height: int, per_band: int, i: int) -> Band {
    let top = i * per_band;
    Band {
        top: top as usize,
        rows: (if height - top < per_band { height - top } else { per_band }) as usize,
    }
}

/// The bands that `height` rows are split into for `threads` workers.
pub open spec fn partition(height: int, threads: int) -> Seq<Band> {
    let per_band = rows_per_band_spec(height, threads);
    Seq::new(band_count(height, per_band) as nat, |i: int| band_at(height, per_band, i))
}

/// Whether row `row` lies in band `b`.
pub open spec fn holds_row(b: Band, row: int) -> bool {
    b.top <= row < b.top + b.rows
}

/// Whether some band of `bands` holds row `row`.
pub open spec fn covered_by(bands: Seq<Band>, row: int) -> bool {
    exists|i: int| 0 <= i < bands.len() && holds_row(#[trigger] bands[i], row)
}

proof fn lemma_ceil_div(h: int, r: int, k: int)
    requires
        r > 0,
        h > 0,
        (k - 1) * r < h,
        h <= k * r,
    ensures
        (h + r - 1) / r == k,
{
    assert(k >= 1) by (nonlinear_arith)
        requires r > 0, h > 0, h <= k * r;
    let x = h + r - 1;
    let rem = x - k * r;
    assert(0 <= rem < r) by (nonlinear_arith)
        requires r > 0, (k - 1) * r < h, h <= k * r, rem == h + r - 1 - k * r;
    vstd::arithmetic::div_mod::lemma_fundamental_div_mod_converse(x, r, k, rem);
}

proof fn lemma_ceil_bounds(x: int, d: int)
    requires
        x >= 1,
        d >= 1,
    ensures
        (x + d - 1) / d >= 1,
        ((x + d - 1) / d) * d >= x,
        ((x + d - 1) / d - 1) * d < x,
{
    let q = (x + d - 1) / d;
    vstd::arithmetic::div_mod::lemma_fundamental_div_mod(x + d - 1, d);
    let rem = (x + d - 1) % d;
    assert(0 <= rem < d);
    assert(x + d - 1 == d * q + rem);
    assert(q * d >= x && (q - 1) * d < x && q >= 1) by (nonlinear_arith)
        requires x + d - 1 == d * q + rem, 0 <= rem < d, x >= 1, d >= 1;
}

proof fn lemma_partition_shape(height: int, threads: int)
    requires
        height >= 1,
        threads >= 1,
    ensures
        rows_per_band_spec(height, threads) >= 1,
        rows_per_band_spec(height, threads) * threads >= height,
        band_count(height, rows_per_band_spec(height, threads)) >= 1,
        band_count(height, rows_per_band_spec(height, threads)) * rows_per_band_spec(height, threads)
            >= height,
        (band_count(height, rows_per_band_spec(height, threads)) - 1) * rows_per_band_spec(
            height,
            threads,
        ) < height,
{
    lemma_ceil_bounds(height, threads);
    lemma_ceil_bounds(height, rows_per_band_spec(height, threads));
}

/// Every band of the partition is a non-empty run of rows inside the image,
/// every row of the image lies in some band, and no row lies in two bands:
/// the bands cover `[0, height)` with no gap and no overlap.
pub proof fn lemma_partition_exact(height: int, threads: int)
    requires
        1 <= height <= usize::MAX,
        threads >= 1,
    ensures
        forall|i: int|
            0 <= i < partition(height, threads).len() ==> #[trigger] partition(height, threads)[i].rows
                >= 1 && partition(height, threads)[i].top + partition(height, threads)[i].rows
                <= height,
        forall|row: int| 0 <= row < height ==> #[trigger] covered_by(partition(height, threads), row),
        forall|i: int, j: int, row: int|
            #![trigger holds_row(partition(height, threads)[i], row), holds_row(partition(height, threads)[j], row)]
            0 <= i < partition(height, threads).len() && 0 <= j < partition(height, threads).len()
                && holds_row(partition(height, threads)[i], row) && holds_row(
                partition(height, threads)[j],
                row,
            ) ==> i == j,
{
    let p = partition(height, threads);
    let per = rows_per_band_spec(height, threads);
    let n = band_count(height, per);
    lemma_partition_shape(height, threads);
    assert forall|i: int| 0 <= i < n implies (#[trigger] p[i]).top == i * per && p[i].top < height
        && p[i].rows >= 1 && p[i].top + p[i].rows <= height && p[i].rows <= per by {
        assert(i * per <= (n - 1) * per) by (nonlinear_arith)
            requires 0 <= i < n, per >= 1;
        assert(0 <= i * per) by (nonlinear_arith)
            requires 0 <= i, per >= 1;
    }
    assert forall|row: int| 0 <= row < height implies #[trigger] covered_by(p, row) by {
        let i = row / per;
        vstd::arithmetic::div_mod::lemma_fundamental_div_mod(row, per);
        assert(i * per <= row < i * per + per && 0 <= i < n) by (nonlinear_arith)
            requires row == per * i + row % per, 0 <= row % per < per, 0 <= row < height,
                n * per >= height, per >= 1;
        assert(holds_row(p[i], row));
    }
    assert forall|i: int, j: int, row: int|
        #![trigger holds_row(p[i], row), holds_row(p[j], row)]
        0 <= i < p.len() && 0 <= j < p.len() && holds_row(p[i], row) && holds_row(p[j], row)
        implies i == j by {
        assert(p[i].top == i * per && p[j].top == j * per);
        if i < j {
            assert((i + 1) * per <= j * per) by (nonlinear_arith)
                requires i < j, per >= 1;
            assert(i * per + per == (i + 1) * per) by (nonlinear_arith);
        } else if j < i {
            assert((j + 1) * per <= i * per) by (nonlinear_arith)
                requires j < i, per >= 1;
            assert(j * per + per == (j + 1) * per) by (nonlinear_arith);
        }
    }
}

/// The partition never makes more bands than there are workers; when the
/// image has no more rows than there are workers, each row is a band of its
/// own, so no band is empty.
pub proof fn lemma_band_count(height: int, threads: int)
    requires
        1 <= height <= usize::MAX,
        threads >= 1,
    ensures
        partition(height, threads).len() <= threads,
        height <= threads ==> partition(height, threads).len() == height,
        height <= threads ==> forall|i: int|
            0 <= i < height ==> #[trigger] partition(height, threads)[i] == (Band {
                top: i as usize,
                rows: 1,
            }),
{
    let per = rows_per_band_spec(height, threads);
    let n = band_count(height, per);
    lemma_partition_shape(height, threads);
    assert(n <= threads) by (nonlinear_arith)
        requires (n - 1) * per < height, per * threads >= height, per >= 1;
    if height <= threads {
        assert(per <= 1) by {
            vstd::arithmetic::div_mod::lemma_fundamental_div_mod(height + threads - 1, threads);
            assert(per * threads <= height + threads - 1);
            assert(per < 2) by (nonlinear_arith)
                requires per * threads <= height + threads - 1, height <= threads, threads >= 1;
        }
        assert(per == 1);
        vstd::arithmetic::div_mod::lemma_fundamental_div_mod_converse(height, 1, height, 0);
        assert(n == height);
        assert forall|i: int| 0 <= i < height implies #[trigger] partition(height, threads)[i] == (
        Band { top: i as usize, rows: 1 }) by {
            assert(i * per == i);
        }
    }
}

/// Rows in each band when `height` rows are shared among `threads` workers.
pub fn rows_per_band(height: usize, threads: usize) -> (r: usize)
    requires
        threads >= 1,
    ensures
        r == rows_per_band_spec(height as int, threads as int),
        height > 0 ==> 1 <= r <= height,
        height == 0 ==> r == 0,
{
    let q: usize = height / threads;
    let extra: usize = if height % threads != 0 { 1 } else { 0 };
    proof {
        vstd::arithmetic::div_mod::lemma_fundamental_div_mod(height as int, threads as int);
        assert(q == 0 ==> threads * q == 0) by (nonlinear_arith);
        if height == 0 {
            vstd::arithmetic::div_mod::lemma_fundamental_div_mod_converse(0, threads as int, 0, 0);
        }
    }
    assert(rows_per_band_spec(height as int, threads as int) == q + extra) by {
        let h = height as int;
        let t = threads as int;
        vstd::arithmetic::div_mod::lemma_fundamental_div_mod(h, t);
        assert(q == h / t);
        assert(h == t * (h / t) + h % t);
        assert(t * q == q * t) by (nonlinear_arith);
        assert((q + 1) * t == q * t + t) by (nonlinear_arith);
        if h % t != 0 {
            vstd::arithmetic::div_mod::lemma_fundamental_div_mod_converse(
                h + t - 1, t, q + 1, h % t - 1);
        } else {
            vstd::arithmetic::div_mod::lemma_fundamental_div_mod_converse(
                h + t - 1, t, q as int, t - 1);
        }
    }
    assert(q + extra <= height) by {
        vstd::arithmetic::div_mod::lemma_fundamental_div_mod(height as int, threads as int);
        assert(q * threads <= height);
        assert(q <= q * threads) by (nonlinear_arith) requires threads >= 1, q >= 0;
    }
    q + extra
}

/// Splits `height` rows into bands for `threads` workers: bands of
/// `ceil(height / threads)` rows, top to bottom, the last one possibly
/// shorter, never an empty one.
pub fn partition_rows(height: usize, threads: usize) -> (r: Vec<Band>)
    requires
        threads >= 1,
    ensures
        r@ == partition(height as int, threads as int),
{
    let per = rows_per_band(height, threads);
    let mut bands: Vec<Band> = Vec::new();
    let mut top: usize = 0;
    assert(0 * per == 0);
    while top < height
        invariant
            per == rows_per_band_spec(height as int, threads as int),
            height > 0 ==> 1 <= per <= height,
            top <= height,
            top == (if bands.len() * per < height { bands.len() * per } else { height as int }),
            bands.len() > 0 ==> (bands.len() - 1) * per < height,
            bands@ =~= Seq::new(bands.len() as nat, |i: int| band_at(height as int, per as int, i)),
        decreases height - top,
    {
        let k = bands.len();
        let rows: usize = if height - top < per { height - top } else { per };
        assert(top == k * per);
        bands.push(Band { top, rows });
        assert((k + 1) * per == k * per + per) by (nonlinear_arith);
        top = top + rows;
    }
    proof {
        let k = bands.len() as int;
        if height > 0 {
            assert(k > 0);
            lemma_ceil_div(height as int, per as int, k);
        }
        assert(bands@ =~= partition(height as int, threads as int));
    }
    bands
}

/// Whether `v` is the grey level that `classify` gives to the pixel at
/// offset `i` of a band that starts at row `top` of an image `width` pixels
/// wide (offsets run row by row).
pub open spec fn shaded_by<F: Fn(usize, usize) -> Option<u32>>(
    classify: F,
    width: int,
    top: int,
    i: int,
    v: u8,
) -> bool {
    exists|o: Option<u32>|
        #[trigger] classify.ensures(((i % width) as usize, (top + i / width) as usize), o) && v
            == shade_of(o)
}

proof fn lemma_row_major(row: int, col: int, width: int)
    requires
        0 <= row,
        0 <= col < width,
    ensures
        (row * width + col) % width == col,
        (row * width + col) / width == row,
{
    vstd::arithmetic::div_mod::lemma_fundamental_div_mod_converse(row * width + col, width, row, col);
}

/// Fills one band of the image, row by row: the byte at offset
/// `row * width + col` becomes the shade of what `classify` says of pixel
/// `(col, band.top + row)`, in the coordinates of the whole image.
pub fn render<F: Fn(usize, usize) -> Option<u32>>(
    pixels: &mut [u8],
    width: usize,
    band: Band,
    classify: &F,
)
    requires
        old(pixels)@.len() == width * band.rows,
        band.top + band.rows <= usize::MAX,
        forall|x: usize, y: usize|
            x < width && band.top <= y < band.top + band.rows ==> #[trigger] classify.requires(
                (x, y),
            ),
    ensures
        final(pixels)@.len() == old(pixels)@.len(),
        forall|i: int|
            0 <= i < final(pixels)@.len() ==> #[trigger] shaded_by(
                *classify,
                width as int,
                band.top as int,
                i,
                final(pixels)@[i],
            ),
{
    let total: usize = pixels.len();
    let mut row: usize = 0;
    while row < band.rows
        invariant
            pixels@.len() == width * band.rows,
            total == width * band.rows,
            row <= band.rows,
            band.top + band.rows <= usize::MAX,
            forall|x: usize, y: usize|
                x < width && band.top <= y < band.top + band.rows ==> #[trigger] classify.requires(
                    (x, y),
                ),
            forall|i: int|
                0 <= i < row * width ==> #[trigger] shaded_by(
                    *classify,
                    width as int,
                    band.top as int,
                    i,
                    pixels@[i],
                ),
        decreases band.rows - row,
    {
        let mut col: usize = 0;
        while col < width
            invariant
                pixels@.len() == width * band.rows,
                total == width * band.rows,
                row < band.rows,
                col <= width,
                band.top + band.rows <= usize::MAX,
                forall|x: usize, y: usize|
                    x < width && band.top <= y < band.top + band.rows
                        ==> #[trigger] classify.requires((x, y)),
                forall|i: int|
                    0 <= i < row * width + col ==> #[trigger] shaded_by(
                        *classify,
                        width as int,
                        band.top as int,
                        i,
                        pixels@[i],
                    ),
            decreases width - col,
        {
            assert(row * width + col < width * band.rows) by (nonlinear_arith)
                requires row < band.rows, col < width;
            let idx: usize = row * width + col;
            let o = classify(col, band.top + row);
            pixels[idx] = shade(o);
            proof {
                lemma_row_major(row as int, col as int, width as int);
                assert(shaded_by(*classify, width as int, band.top as int, idx as int, pixels@[idx as int]));
            }
            col = col + 1;
        }
        assert((row + 1) * width == row * width + width) by (nonlinear_arith);
        row = row + 1;
    }
    assert(row * width == width * band.rows) by (nonlinear_arith)
        requires row == band.rows;
}

proof fn lemma_band_offset(top: int, width: int, j: int)
    requires
        top >= 0,
        width >= 1,
        j >= 0,
    ensures
        (top * width + j) % width == j % width,
        (top * width + j) / width == top + j / width,
{
    vstd::arithmetic::div_mod::lemma_fundamental_div_mod(j, width);
    assert(top * width + j == (top + j / width) * width + j % width) by (nonlinear_arith)
        requires j == width * (j / width) + j % width;
    vstd::arithmetic::div_mod::lemma_fundamental_div_mod_converse(
        top * width + j, width, top + j / width, j % width);
}

/// Renders a whole image one band after another, with the bands that
/// `partition_rows` makes for `threads` workers: every byte ends up as the
/// shade of what `classify` says of its pixel.
pub fn render_image<F: Fn(usize, usize) -> Option<u32>>(
    pixels: &mut [u8],
    width: usize,
    height: usize,
    threads: usize,
    classify: &F,
)
    requires
        old(pixels)@.len() == width * height,
        width >= 1,
        height >= 1,
        threads >= 1,
        forall|x: usize, y: usize| x < width && y < height ==> #[trigger] classify.requires((x, y)),
    ensures
        final(pixels)@.len() == old(pixels)@.len(),
        forall|i: int|
            0 <= i < final(pixels)@.len() ==> #[trigger] shaded_by(
                *classify,
                width as int,
                0,
                i,
                final(pixels)@[i],
            ),
{
    let bands = partition_rows(height, threads);
    let ghost p = partition(height as int, threads as int);
    let ghost per = rows_per_band_spec(height as int, threads as int);
    proof {
        lemma_partition_shape(height as int, threads as int);
    }
    let ghost whole: Seq<u8> = final(pixels)@;
    let mut rest: &mut [u8] = pixels;
    let ghost mut done: Seq<u8> = Seq::empty();
    let mut top: usize = 0;
    let mut k: usize = 0;
    assert(0 * per == 0);
    assert(width * (height - 0) == width * height);
    while k < bands.len()
        invariant
            bands@ == p,
            p == partition(height as int, threads as int),
            per == rows_per_band_spec(height as int, threads as int),
            per >= 1,
            p.len() * per >= height,
            (p.len() - 1) * per < height,
            width >= 1,
            forall|x: usize, y: usize| x < width && y < height ==> #[trigger] classify.requires((x, y)),
            k <= p.len(),
            top == (if k * per < height { k * per } else { height as int }),
            k == p.len() ==> top == height,
            rest@.len() == width * (height - top),
            done.len() == width * top,
            forall|i: int|
                0 <= i < done.len() ==> #[trigger] shaded_by(*classify, width as int, 0, i, done[i]),
            whole == done + final(rest)@,
        decreases p.len() - k,
    {
        let band = bands[k];
        proof {
            assert(k * per <= (p.len() - 1) * per) by (nonlinear_arith)
                requires k < p.len(), per >= 1;
            assert(0 <= k * per) by (nonlinear_arith)
                requires k >= 0, per >= 1;
            assert((k + 1) * per == k * per + per) by (nonlinear_arith);
            assert(band.top == top);
            assert(band.rows * width <= width * (height - top)) by (nonlinear_arith)
                requires band.rows <= height - top, width >= 1;
        }
        let room: usize = rest.len();
        assert(band.rows * width <= room);
        let (mine, others) = rest.split_at_mut(band.rows * width);
        assert(band.rows * width == width * band.rows) by (nonlinear_arith);
        render(mine, width, band, classify);
        let ghost band_bytes = mine@;
        proof {
            assert forall|i: int| 0 <= i < done.len() + band_bytes.len() implies #[trigger] shaded_by(
                *classify,
                width as int,
                0,
                i,
                (done + band_bytes)[i],
            ) by {
                if i >= done.len() {
                    let j = i - done.len();
                    assert(shaded_by(*classify, width as int, top as int, j, band_bytes[j]));
                    assert(i == top * width + j) by (nonlinear_arith)
                        requires i == j + done.len(), done.len() == width * top;
                    lemma_band_offset(top as int, width as int, j);
                }
            }
            assert((done + band_bytes).len() == width * (top + band.rows)) by (nonlinear_arith)
                requires done.len() == width * top, band_bytes.len() == width * band.rows;
            assert(width * (height - top) - width * band.rows == width * (height - (top + band.rows)))
                by (nonlinear_arith);
            done = done + band_bytes;
        }
        rest = others;
        top = top + band.rows;
        k = k + 1;
    }
}

/// The bytes of band `b` of an image `width` pixels wide when pixel `(x, y)`
/// is classified as `c(x, y)`.
pub open spec fn band_image(width: int, b: Band, c: spec_fn(int, int) -> Option<u32>) -> Seq<u8> {
    Seq::new((width * b.rows) as nat, |i: int| shade_of(c(i % width, b.top + i / width)))
}

/// The bytes of a whole image of `height` rows.
pub open spec fn image_of(width: int, height: int, c: spec_fn(int, int) -> Option<u32>) -> Seq<u8> {
    Seq::new((width * height) as nat, |i: int| shade_of(c(i % width, i / width)))
}

/// The bands' bytes laid one after another, first band first.
pub open spec fn assemble(width: int, bands: Seq<Band>, c: spec_fn(int, int) -> Option<u32>) -> Seq<
    u8,
>
    decreases bands.len(),
{
    if bands.len() == 0 {
        Seq::empty()
    } else {
        assemble(width, bands.drop_last(), c) + band_image(width, bands.last(), c)
    }
}

/// A band that `render` filled with a classifier that answers as the
/// function `c` does holds exactly the band's part of the image.
pub proof fn lemma_render_is_band_image<F: Fn(usize, usize) -> Option<u32>>(
    classify: F,
    c: spec_fn(int, int) -> Option<u32>,
    width: int,
    band: Band,
    pixels: Seq<u8>,
)
    requires
        1 <= width <= usize::MAX,
        forall|x: usize, y: usize, o: Option<u32>|
            #[trigger] classify.ensures((x, y), o) ==> o == c(x as int, y as int),
        pixels.len() == width * band.rows,
        band.top + band.rows <= usize::MAX,
        forall|i: int|
            0 <= i < pixels.len() ==> #[trigger] shaded_by(
                classify,
                width,
                band.top as int,
                i,
                pixels[i],
            ),
    ensures
        pixels == band_image(width, band, c),
{
    assert forall|i: int| 0 <= i < pixels.len() implies pixels[i] == #[trigger] band_image(
        width,
        band,
        c,
    )[i] by {
        assert(shaded_by(classify, width, band.top as int, i, pixels[i]));
        let o = choose|o: Option<u32>|
            #[trigger] classify.ensures(
                ((i % width) as usize, (band.top + i / width) as usize),
                o,
            ) && pixels[i] == shade_of(o);
        vstd::arithmetic::div_mod::lemma_fundamental_div_mod(i, width);
        assert(i / width < band.rows) by (nonlinear_arith)
            requires i == width * (i / width) + i % width, 0 <= i % width, i < width * band.rows,
                width >= 1;
        assert(0 <= i / width) by (nonlinear_arith)
            requires i >= 0, width >= 1;
        assert(o == c(i % width, band.top + i / width));
    }
    assert(pixels =~= band_image(width, band, c));
}

proof fn lemma_image_extend(width: int, top: int, b: Band, c: spec_fn(int, int) -> Option<u32>)
    requires
        width >= 1,
        top >= 0,
        b.top == top,
    ensures
        image_of(width, top, c) + band_image(width, b, c) =~= image_of(width, top + b.rows, c),
{
    assert(width * (top + b.rows) == width * top + width * b.rows) by (nonlinear_arith);
    assert(width * top >= 0 && width * b.rows >= 0) by (nonlinear_arith)
        requires width >= 1, top >= 0;
    let whole = image_of(width, top + b.rows, c);
    let left = image_of(width, top, c);
    let right = band_image(width, b, c);
    assert forall|i: int| 0 <= i < whole.len() implies #[trigger] whole[i] == (left + right)[i] by {
        if i >= width * top {
            let j = i - width * top;
            vstd::arithmetic::div_mod::lemma_fundamental_div_mod(j, width);
            assert(i == width * (top + j / width) + j % width) by (nonlinear_arith)
                requires j == width * (j / width) + j % width, i == j + width * top;
            vstd::arithmetic::div_mod::lemma_fundamental_div_mod_converse(
                i, width, top + j / width, j % width);
        }
    }
}

#[verifier::rlimit(40)]
proof fn lemma_bands_prefix(
    width: int,
    height: int,
    threads: int,
    c: spec_fn(int, int) -> Option<u32>,
    k: int,
)
    requires
        width >= 1,
        1 <= height <= usize::MAX,
        threads >= 1,
        0 <= k <= partition(height, threads).len(),
    ensures
        assemble(width, partition(height, threads).take(k), c) == image_of(
            width,
            if k * rows_per_band_spec(height, threads) < height {
                k * rows_per_band_spec(height, threads)
            } else {
                height
            },
            c,
        ),
    decreases k,
{
    let p = partition(height, threads);
    let per = rows_per_band_spec(height, threads);
    lemma_partition_shape(height, threads);
    if k == 0 {
        assert(image_of(width, 0, c) =~= Seq::empty());
        assert(p.take(0) =~= Seq::empty());
    } else {
        let j = k - 1;
        lemma_bands_prefix(width, height, threads, c, j);
        assert(j * per <= (p.len() - 1) * per) by (nonlinear_arith)
            requires j < p.len(), per >= 1;
        assert(0 <= j * per) by (nonlinear_arith)
            requires j >= 0, per >= 1;
        assert(k * per == j * per + per) by (nonlinear_arith)
            requires k == j + 1;
        let b = p[j];
        assert(j * per < height);
        assert(b.top == j * per);
        assert(b.rows == (if height - j * per < per { height - j * per } else { per }));
        assert(p.take(k).drop_last() =~= p.take(j));
        assert(p.take(k).last() == b);
        assert(assemble(width, p.take(k), c) == assemble(width, p.take(j), c) + band_image(width, b, c));
        lemma_image_extend(width, j * per, b, c);
    }
}

/// The bands of the partition, laid one after another, make up the whole
/// image, whatever the number of workers.
pub proof fn lemma_bands_make_image(
    width: int,
    height: int,
    threads: int,
    c: spec_fn(int, int) -> Option<u32>,
)
    requires
        width >= 1,
        1 <= height <= usize::MAX,
        threads >= 1,
    ensures
        assemble(width, partition(height, threads), c) == image_of(width, height, c),
{
    let p = partition(height, threads);
    lemma_partition_shape(height, threads);
    lemma_bands_prefix(width, height, threads, c, p.len() as int);
    assert(p.take(p.len() as int) =~= p);
}

/// Two buffers that `render_image` filled for the same image, whatever
/// number of workers each run used (one and eight, say), hold the same
/// bytes, namely the image itself, when the classifier answers as a fixed
/// function `c` of the pixel.
pub proof fn lemma_render_image_deterministic<F: Fn(usize, usize) -> Option<u32>>(
    classify: F,
    c: spec_fn(int, int) -> Option<u32>,
    width: int,
    height: int,
    a: Seq<u8>,
    b: Seq<u8>,
)
    requires
        1 <= width <= usize::MAX,
        1 <= height <= usize::MAX,
        forall|x: usize, y: usize, o: Option<u32>|
            #[trigger] classify.ensures((x, y), o) ==> o == c(x as int, y as int),
        a.len() == width * height,
        b.len() == width * height,
        forall|i: int| 0 <= i < a.len() ==> #[trigger] shaded_by(classify, width, 0, i, a[i]),
        forall|i: int| 0 <= i < b.len() ==> #[trigger] shaded_by(classify, width, 0, i, b[i]),
    ensures
        a == image_of(width, height, c),
        a == b,
{
    let whole = Band { top: 0, rows: height as usize };
    lemma_render_is_band_image(classify, c, width, whole, a);
    lemma_render_is_band_image(classify, c, width, whole, b);
    assert(band_image(width, whole, c) =~= image_of(width, height, c));
}

/// Rendering with one worker or with any other number of workers gives the
/// same bytes.
pub proof fn lemma_same_image_for_any_workers(
    width: int,
    height: int,
    threads_a: int,
    threads_b: int,
    c: spec_fn(int, int) -> Option<u32>,
)
    requires
        width >= 1,
        1 <= height <= usize::MAX,
        threads_a >= 1,
        threads_b >= 1,
    ensures
        assemble(width, partition(height, threads_a), c) == assemble(
            width,
            partition(height, threads_b),
            c,
        ),
{
    lemma_bands_make_image(width, height, threads_a, c);
    lemma_bands_make_image(width, height, threads_b, c);
}

} // verus!
