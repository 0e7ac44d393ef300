//! A 1-bit bitmap buffer and its encoding as `ESC *` column bit-image bands
//! for a 9-pin dot-matrix receipt printer.
//!
//! The legacy column bit-image command `ESC * m nL nH d1..dk` prints one band
//! of 8 dot rows; each data byte is one column of the band, with the most
//! significant bit driving the top pin. Bands are separated by a line feed so
//! that stacked bands form one contiguous image.
use vstd::prelude::*;

verus! {

/// What a bitmap holds: its dimensions and its rows of dots (`true` is black).
pub struct BitmapModel {
    pub width: nat,
    pub height: nat,
    pub rows: Seq<Seq<bool>>,
}

impl BitmapModel {
    /// A model whose rows match its dimensions.
    pub open spec fn wf(self) -> bool {
        &&& self.rows.len() == self.height
        &&& forall|y: int| 0 <= y < self.height ==> #[trigger] self.rows[y].len() == self.width
    }

    /// Whether `(x, y)` lies inside the bitmap.
    pub open spec fn in_bounds(self, x: int, y: int) -> bool {
        0 <= x < self.width && 0 <= y < self.height
    }

    /// The dot at `(x, y)`; every position outside the bitmap reads white.
    pub open spec fn dot(self, x: int, y: int) -> bool {
        if self.in_bounds(x, y) {
            self.rows[y][x]
        } else {
            false
        }
    }

    /// An all-white model of the given dimensions.
    pub open spec fn blank(width: nat, height: nat) -> BitmapModel {
        BitmapModel { width, height, rows: Seq::new(height, |_y: int| Seq::new(width, |_x: int| false)) }
    }

    /// This model with the dot at `(x, y)` made black, or unchanged where
    /// `(x, y)` is outside it.
    pub open spec fn with_dot(self, x: int, y: int) -> BitmapModel {
        if self.in_bounds(x, y) {
            BitmapModel { rows: self.rows.update(y, self.rows[y].update(x, true)), ..self }
        } else {
            self
        }
    }
}

/// A 1-bit image buffer where `true` means a black dot.
///
/// Pixels are stored row-major, one `bool` per dot.
pub struct Bitmap {
    width: usize,
    height: usize,
    pixels: Vec<bool>,
}

impl Bitmap {
    #[verifier::type_invariant]
    spec fn inv(self) -> bool {
        self.pixels.len() == self.width * self.height
    }

    /// The stored dot of row `y`, column `x`.
    spec fn cell(self, x: int, y: int) -> bool {
        self.pixels@[y * self.width + x]
    }
}

impl View for Bitmap {
    type V = BitmapModel;

    closed spec fn view(&self) -> BitmapModel {
        BitmapModel {
            width: self.width as nat,
            height: self.height as nat,
            rows: Seq::new(
                self.height as nat,
                |y: int| Seq::new(self.width as nat, |x: int| self.cell(x, y)),
            ),
        }
    }
}

/// `0 <= y * w + x < w * h` for a position inside a `w` by `h` grid.
proof fn lemma_index_in_range(x: int, y: int, w: int, h: int)
    requires
        0 <= x < w,
        0 <= y < h,
    ensures
        0 <= y * w + x < w * h,
{
    assert(0 <= y * w) by (nonlinear_arith)
        requires
            0 <= y,
            0 <= w,
    ;
    assert(y * w + x < w * h) by (nonlinear_arith)
        requires
            0 <= x < w,
            0 <= y < h,
    ;
}

/// Distinct positions of a grid of width `w` have distinct row-major indices.
proof fn lemma_index_injective(x1: int, y1: int, x2: int, y2: int, w: int)
    requires
        0 <= x1 < w,
        0 <= x2 < w,
        0 <= y1,
        0 <= y2,
        y1 * w + x1 == y2 * w + x2,
    ensures
        x1 == x2,
        y1 == y2,
{
    if y1 < y2 {
        assert(y1 * w + x1 < y2 * w + x2) by (nonlinear_arith)
            requires
                y1 < y2,
                0 <= x1 < w,
                0 <= x2,
        ;
    } else if y2 < y1 {
        assert(y2 * w + x2 < y1 * w + x1) by (nonlinear_arith)
            requires
                y2 < y1,
                0 <= x2 < w,
                0 <= x1,
        ;
    }
}

impl Bitmap {
    /// The view of every bitmap is well formed.
    pub proof fn lemma_view_wf(&self)
        ensures
            self@.wf(),
    {
    }

    /// Create a blank (all-white) bitmap of the given dot dimensions.
    pub fn new(width: usize, height: usize) -> (b: Self)
        requires
            width * height <= usize::MAX,
        ensures
            b@ == BitmapModel::blank(width as nat, height as nat),
            b@.wf(),
    {
        let n: usize = width * height;
        let mut pixels: Vec<bool> = Vec::with_capacity(n);
        while pixels.len() < n
            invariant
                pixels.len() <= n,
                forall|i: int| 0 <= i < pixels.len() ==> !pixels@[i],
            decreases n - pixels.len(),
        {
            pixels.push(false);
        }
        let b = Bitmap { width, height, pixels };
        assert forall|y: int| 0 <= y < height implies #[trigger] b@.rows[y] == Seq::new(
            width as nat,
            |_x: int| false,
        ) by {
            assert forall|x: int| 0 <= x < width implies !b.cell(x, y) by {
                lemma_index_in_range(x, y, width as int, height as int);
            }
        }
        assert(b@.rows =~= BitmapModel::blank(width as nat, height as nat).rows);
        b
    }

    /// The bitmap of `width` by `height` dots whose row-major dots are `dots`.
    pub fn from_dots(width: usize, height: usize, dots: Vec<bool>) -> (b: Self)
        requires
            dots.len() == width * height,
        ensures
            b@ == (BitmapModel {
                width: width as nat,
                height: height as nat,
                rows: Seq::new(
                    height as nat,
                    |y: int| Seq::new(width as nat, |x: int| dots@[y * width + x]),
                ),
            }),
    {
        let b = Bitmap { width, height, pixels: dots };
        let ghost rows = Seq::new(
            height as nat,
            |y: int| Seq::new(width as nat, |x: int| b.pixels@[y * width + x]),
        );
        assert forall|y: int| 0 <= y < height implies #[trigger] b@.rows[y] =~= rows[y] by {}
        assert(b@.rows =~= rows);
        b
    }

    /// Width in dot columns.
    pub fn width(&self) -> (w: usize)
        ensures
            w == self@.width,
    {
        self.width
    }

    /// Height in dot rows.
    pub fn height(&self) -> (h: usize)
        ensures
            h == self@.height,
    {
        self.height
    }

    /// Set a dot black. Coordinates outside the buffer are ignored, so callers
    /// can draw with signed math without bounds-checking every pixel.
    pub fn set(&mut self, x: isize, y: isize)
        ensures
            final(self)@ == old(self)@.with_dot(x as int, y as int),
    {
        proof {
            use_type_invariant(&*self);
        }
        if x >= 0 && y >= 0 && (x as usize) < self.width && (y as usize) < self.height {
            let ghost old_self = *self;
            let xu = x as usize;
            let yu = y as usize;
            proof {
                lemma_index_in_range(xu as int, yu as int, self.width as int, self.height as int);
            }
            let i = yu * self.width + xu;
            let mut taken = Bitmap { width: 0, height: 0, pixels: Vec::new() };
            std::mem::swap(self, &mut taken);
            let Bitmap { width, height, mut pixels } = taken;
            pixels.set(i, true);
            *self = Bitmap { width, height, pixels };
            proof {
                let w = self.width as int;
                assert forall|yy: int, xx: int| 0 <= yy < self.height && 0 <= xx < w implies
                    #[trigger] self.cell(xx, yy) == (if yy == yu && xx == xu {
                        true
                    } else {
                        old_self.cell(xx, yy)
                    }) by {
                    lemma_index_in_range(xx, yy, w, self.height as int);
                    if yy * w + xx == i {
                        lemma_index_injective(xx, yy, xu as int, yu as int, w);
                    }
                }
                let target = old_self@.rows.update(
                    yu as int,
                    old_self@.rows[yu as int].update(xu as int, true),
                );
                assert forall|yy: int| 0 <= yy < self.height implies #[trigger] self@.rows[yy]
                    =~= target[yy] by {
                    assert forall|xx: int| 0 <= xx < w implies self@.rows[yy][xx] == target[yy][xx] by {
                        assert(self.cell(xx, yy) == (if yy == yu && xx == xu {
                            true
                        } else {
                            old_self.cell(xx, yy)
                        }));
                    }
                }
                assert(self@.rows =~= old_self@.rows.update(
                    yu as int,
                    old_self@.rows[yu as int].update(xu as int, true),
                ));
            }
        }
    }

    /// Read a dot. Out-of-range coordinates read as white (`false`).
    pub fn get(&self, x: usize, y: usize) -> (d: bool)
        ensures
            d == self@.dot(x as int, y as int),
    {
        proof {
            use_type_invariant(self);
        }
        if x < self.width && y < self.height {
            proof {
                lemma_index_in_range(x as int, y as int, self.width as int, self.height as int);
            }
            self.pixels[y * self.width + x]
        } else {
            false
        }
    }
}

/// Number of 8-dot bands that cover `height` dot rows (the height padded up
/// to a whole number of bands).
pub open spec fn band_count(height: nat) -> nat {
    ((height + 7) / 8) as nat
}

/// The bit of a band's column byte that carries pin `j` (`0` is the top pin,
/// which is the most significant bit).
pub open spec fn pin_mask(j: int) -> u8 {
    1u8 << ((7 - j) as u8)
}

/// The column byte of band `band` at column `x` with only the top `k` pins
/// filled in from the bitmap.
pub open spec fn column_bits(m: BitmapModel, x: int, band: int, k: nat) -> u8
    decreases k,
{
    if k == 0 {
        0
    } else {
        let prev = column_bits(m, x, band, (k - 1) as nat);
        if m.dot(x, band * 8 + k - 1) {
            prev | pin_mask(k - 1)
        } else {
            prev
        }
    }
}

/// The data byte of column `x` in band `band`: bit `7 - j` is set exactly when
/// the dot in row `band * 8 + j` is black. Rows past the bitmap read white.
pub open spec fn column_byte(m: BitmapModel, x: int, band: int) -> u8 {
    column_bits(m, x, band, 8)
}

/// The `ESC * m nL nH` header of a band of `width` columns.
pub open spec fn band_header(width: nat, mode: u8) -> Seq<u8> {
    seq![0x1Bu8, 0x2Au8, mode, (width % 256) as u8, (width / 256) as u8]
}

/// One encoded band: header, one byte per column, then a line feed.
pub open spec fn band_bytes(m: BitmapModel, mode: u8, band: int) -> Seq<u8> {
    band_header(m.width, mode) + Seq::new(m.width, |x: int| column_byte(m, x, band)) + seq![0x0Au8]
}

/// The first `n` bands, concatenated.
pub open spec fn encoded_bands(m: BitmapModel, mode: u8, n: nat) -> Seq<u8>
    decreases n,
{
    if n == 0 {
        Seq::empty()
    } else {
        encoded_bands(m, mode, (n - 1) as nat) + band_bytes(m, mode, n - 1)
    }
}

/// The whole bit image of a bitmap: every band, in order from the top.
pub open spec fn bit_image(m: BitmapModel, mode: u8) -> Seq<u8> {
    encoded_bands(m, mode, band_count(m.height))
}

/// Encode a bitmap into a sequence of `ESC * m nL nH d..` bands, each followed
/// by a line feed (`0x0A`) that advances the paper by exactly one band height.
///
/// `mode` selects the `ESC *` density (0 = 8-dot single density ~60 dpi,
/// 1 = 8-dot double density ~120 dpi); the TM-U220 supports modes 0 and 1.
/// The height is padded up to a whole number of 8-dot bands.
pub fn encode_bit_image(bitmap: &Bitmap, mode: u8) -> (out: Vec<u8>)
    ensures
        out@ == bit_image(bitmap@, mode),
{
    let ghost m = bitmap@;
    let width = bitmap.width();
    let height = bitmap.height();
    let n_low = (width % 256) as u8;
    let n_high = (width / 256) as u8;
    let bands: usize = height / 8 + if height % 8 == 0 { 0 } else { 1 };
    assert(bands == band_count(m.height));

    let mut out: Vec<u8> = Vec::new();
    let mut band: usize = 0;
    while band < bands
        invariant
            m == bitmap@,
            width == m.width,
            height == m.height,
            bands == band_count(m.height),
            band <= bands,
            n_low == (width % 256) as u8,
            n_high == (width / 256) as u8,
            out@ == encoded_bands(m, mode, band as nat),
        decreases bands - band,
    {
        let ghost start = out@;
        assert(band * 8 < height) by (nonlinear_arith)
            requires
                band < bands,
                bands == (height + 7) / 8,
        ;
        out.push(0x1B);
        out.push(0x2A);
        out.push(mode);
        out.push(n_low);
        out.push(n_high);
        assert(out@ == start + band_header(m.width, mode));
        let mut x: usize = 0;
        while x < width
            invariant
                m == bitmap@,
                width == m.width,
                height == m.height,
                band * 8 < height,
                x <= width,
                out@ == start + band_header(m.width, mode) + Seq::new(
                    x as nat,
                    |xx: int| column_byte(m, xx, band as int),
                ),
            decreases width - x,
        {
            let mut byte: u8 = 0;
            let mut bit: usize = 0;
            while bit < 8
                invariant
                    m == bitmap@,
                    height == m.height,
                    band * 8 < height,
                    bit <= 8,
                    byte == column_bits(m, x as int, band as int, bit as nat),
                decreases 8 - bit,
            {
                let black = if bit < height - band * 8 {
                    bitmap.get(x, band * 8 + bit)
                } else {
                    false
                };
                if black {
                    // Bit 7 (MSB) is the top pin of the band.
                    byte = byte | (1u8 << ((7 - bit) as u8));
                }
                bit = bit + 1;
            }
            out.push(byte);
            assert(out@ =~= start + band_header(m.width, mode) + Seq::new(
                (x + 1) as nat,
                |xx: int| column_byte(m, xx, band as int),
            ));
            x = x + 1;
        }
        out.push(0x0A);
        assert(out@ =~= encoded_bands(m, mode, (band + 1) as nat));
        band = band + 1;
    }
    out
}

/// Setting one pin's bit leaves every other pin's bit as it was.
proof fn lemma_or_pin(p: u8, j: u8, k: u8)
    requires
        j < 8,
        k < 8,
    ensures
        ((p | (1u8 << (7 - k) as u8)) >> (7 - j) as u8) & 1 == 1 <==> (((p >> (7 - j) as u8) & 1
            == 1) || j == k),
        (0u8 >> (7 - j) as u8) & 1 == 0,
        ((p >> (7 - j) as u8) & 1 == 1) || ((p >> (7 - j) as u8) & 1 == 0),
{
    assert(((p | (1u8 << (7 - k) as u8)) >> (7 - j) as u8) & 1 == 1 <==> (((p >> (7 - j) as u8) & 1
        == 1) || j == k)) by (bit_vector)
        requires
            j < 8,
            k < 8,
    ;
    assert((0u8 >> (7 - j) as u8) & 1 == 0) by (bit_vector);
    assert(((p >> (7 - j) as u8) & 1 == 1) || ((p >> (7 - j) as u8) & 1 == 0)) by (bit_vector);
}

/// Pin `j` of a partly filled column byte is set exactly when `j` is among the
/// filled pins and its dot is black.
proof fn lemma_column_bits(m: BitmapModel, x: int, band: int, k: nat, j: int)
    requires
        k <= 8,
        0 <= j < 8,
    ensures
        ((column_bits(m, x, band, k) >> (7 - j) as u8) & 1 == 1) <==> (j < k && m.dot(
            x,
            band * 8 + j,
        )),
        ((column_bits(m, x, band, k) >> (7 - j) as u8) & 1 == 1) || ((column_bits(m, x, band, k)
            >> (7 - j) as u8) & 1 == 0),
    decreases k,
{
    lemma_or_pin(column_bits(m, x, band, k), j as u8, 0);
    if k > 0 {
        lemma_column_bits(m, x, band, (k - 1) as nat, j);
        lemma_or_pin(column_bits(m, x, band, (k - 1) as nat), j as u8, (k - 1) as u8);
    }
}

/// The first `n` bands take `n * (width + 6)` bytes, and band `k` among them
/// sits at offset `k * (width + 6)`.
proof fn lemma_encoded_bands(m: BitmapModel, mode: u8, n: nat)
    ensures
        encoded_bands(m, mode, n).len() == n * (m.width + 6),
        forall|k: int|
            0 <= k < n ==> #[trigger] encoded_bands(m, mode, n).subrange(
                k * (m.width + 6),
                (k + 1) * (m.width + 6),
            ) == band_bytes(m, mode, k),
    decreases n,
{
    let w = m.width + 6;
    if n > 0 {
        lemma_encoded_bands(m, mode, (n - 1) as nat);
        let prev = encoded_bands(m, mode, (n - 1) as nat);
        let all = encoded_bands(m, mode, n);
        assert(band_bytes(m, mode, n - 1).len() == w);
        assert((n - 1) * w + w == n * w) by (nonlinear_arith);
        assert forall|k: int| 0 <= k < n implies #[trigger] all.subrange(k * w, (k + 1) * w)
            == band_bytes(m, mode, k) by {
            if k < n - 1 {
                assert((k + 1) * w <= (n - 1) * w) by (nonlinear_arith)
                    requires
                        k < n - 1,
                        0 <= w,
                ;
                assert(0 <= k * w) by (nonlinear_arith)
                    requires
                        0 <= k,
                        0 <= w,
                ;
                assert((k + 1) * w == k * w + w) by (nonlinear_arith);
                assert(all.subrange(k * w, (k + 1) * w) =~= prev.subrange(k * w, (k + 1) * w));
            } else {
                assert(all.subrange(k * w, (k + 1) * w) =~= band_bytes(m, mode, k));
            }
        }
    }
}

/// Layout of a bit image: it holds one band of `width + 6` bytes per 8 dot
/// rows (rounded up), and each band is `ESC * m nL nH`, one byte per column
/// and a line feed.
pub proof fn law_bit_image_layout(m: BitmapModel, mode: u8)
    ensures
        bit_image(m, mode).len() == band_count(m.height) * (m.width + 6),
        band_count(m.height) * 8 >= m.height,
        band_count(m.height) * 8 < m.height + 8,
        forall|band: int|
            0 <= band < band_count(m.height) ==> {
                let o = #[trigger] (band * (m.width + 6));
                let img = bit_image(m, mode);
                &&& img[o] == 0x1B
                &&& img[o + 1] == 0x2A
                &&& img[o + 2] == mode
                &&& img[o + 3] == (m.width % 256) as u8
                &&& img[o + 4] == (m.width / 256) as u8
                &&& img[o + m.width + 5] == 0x0A
            },
        forall|band: int|
            0 <= band < band_count(m.height) ==> #[trigger] bit_image(m, mode).subrange(
                band * (m.width + 6),
                (band + 1) * (m.width + 6),
            ) == band_header(m.width, mode) + Seq::new(
                m.width,
                |x: int| column_byte(m, x, band),
            ) + seq![0x0Au8],
{
    let w = m.width + 6;
    let img = bit_image(m, mode);
    lemma_encoded_bands(m, mode, band_count(m.height));
    assert forall|band: int| 0 <= band < band_count(m.height) implies {
        let o = #[trigger] (band * (m.width + 6));
        &&& img[o] == 0x1B
        &&& img[o + 1] == 0x2A
        &&& img[o + 2] == mode
        &&& img[o + 3] == (m.width % 256) as u8
        &&& img[o + 4] == (m.width / 256) as u8
        &&& img[o + m.width + 5] == 0x0A
    } by {
        let o = band * w;
        assert((band + 1) * w == o + w) by (nonlinear_arith)
            requires
                o == band * w,
        ;
        assert(o + w <= band_count(m.height) * w) by (nonlinear_arith)
            requires
                o == band * w,
                band + 1 <= band_count(m.height),
                0 <= w,
        ;
        assert(0 <= o) by (nonlinear_arith)
            requires
                o == band * w,
                0 <= band,
                0 <= w,
        ;
        let sub = img.subrange(o, o + w);
        assert(sub == band_bytes(m, mode, band));
        assert(img[o] == sub[0]);
        assert(img[o + 1] == sub[1]);
        assert(img[o + 2] == sub[2]);
        assert(img[o + 3] == sub[3]);
        assert(img[o + 4] == sub[4]);
        assert(img[o + m.width + 5] == sub[m.width + 5int]);
    }
}

/// The encoding loses no dot: the dot at `(x, y)` is bit `7 - y % 8` of the
/// byte for column `x` in band `y / 8`, and rows added to pad the last band
/// print white.
pub proof fn law_bit_image_dots(m: BitmapModel, mode: u8, x: int, y: int)
    requires
        0 <= x < m.width,
        0 <= y < band_count(m.height) * 8,
    ensures
        ({
            let byte = bit_image(m, mode)[(y / 8) * (m.width + 6) + 5 + x];
            ((byte >> (7 - y % 8) as u8) & 1 == 1) == m.dot(x, y)
        }),
        y >= m.height ==> !m.dot(x, y),
{
    let band = y / 8;
    let w = m.width + 6;
    lemma_encoded_bands(m, mode, band_count(m.height));
    assert(0 <= band < band_count(m.height));
    let img = bit_image(m, mode);
    assert(img.subrange(band * w, (band + 1) * w) == band_bytes(m, mode, band));
    assert((band + 1) * w == band * w + w) by (nonlinear_arith);
    assert((band + 1) * w <= band_count(m.height) * w) by (nonlinear_arith)
        requires
            band + 1 <= band_count(m.height),
            0 <= w,
    ;
    assert(0 <= band * w) by (nonlinear_arith)
        requires
            0 <= band,
            0 <= w,
    ;
    assert(img[band * w + 5 + x] == img.subrange(band * w, (band + 1) * w)[5 + x]);
    assert(band_bytes(m, mode, band)[5 + x] == column_byte(m, x, band));
    lemma_column_bits(m, x, band, 8, y % 8);
    assert(band * 8 + y % 8 == y);
}

/// Making a dot black reads back black and leaves every other dot as it was;
/// a position outside the bitmap changes nothing.
pub proof fn law_set_then_get(m: BitmapModel, x: int, y: int, x2: int, y2: int)
    requires
        m.wf(),
    ensures
        m.with_dot(x, y).wf(),
        m.with_dot(x, y).width == m.width,
        m.with_dot(x, y).height == m.height,
        m.with_dot(x, y).dot(x2, y2) == (m.dot(x2, y2) || (x2 == x && y2 == y && m.in_bounds(x, y))),
{
}

proof fn lemma_or_commute_idem(p: u8, a: u8, b: u8)
    ensures
        (p | a) | b == (p | b) | a,
        (p | a) | a == p | a,
{
    assert((p | a) | b == (p | b) | a) by (bit_vector);
    assert((p | a) | a == p | a) by (bit_vector);
}

/// After making dot `(x, y)` black, the column byte of that dot gains its pin
/// and every other column byte stays as it was.
proof fn lemma_column_bits_with_dot(m: BitmapModel, x: int, y: int, xc: int, band: int, k: nat)
    requires
        m.wf(),
        m.in_bounds(x, y),
        k <= 8,
    ensures
        column_bits(m.with_dot(x, y), xc, band, k) == (if xc == x && band == y / 8 && y % 8 < k {
            column_bits(m, xc, band, k) | pin_mask(y % 8)
        } else {
            column_bits(m, xc, band, k)
        }),
    decreases k,
{
    let m2 = m.with_dot(x, y);
    if k > 0 {
        let j = k - 1;
        lemma_column_bits_with_dot(m, x, y, xc, band, (k - 1) as nat);
        law_set_then_get(m, x, y, xc, band * 8 + j);
        let prev = column_bits(m, xc, band, (k - 1) as nat);
        let d = m.dot(xc, band * 8 + j);
        if xc == x && band == y / 8 {
            let mm = pin_mask(y % 8);
            let mj = pin_mask(j);
            lemma_or_commute_idem(prev, mm, mj);
            lemma_or_commute_idem(prev, mj, mm);
            if y % 8 == j {
                assert(band * 8 + j == y);
            } else {
                assert(band * 8 + j != y);
            }
        } else {
            assert(band * 8 + j != y || xc != x);
        }
    }
}

/// An update of one element commutes with appending after it.
proof fn lemma_update_append<A>(a: Seq<A>, b: Seq<A>, i: int, v: A)
    requires
        0 <= i < a.len(),
    ensures
        a.update(i, v) + b == (a + b).update(i, v),
{
    assert(a.update(i, v) + b =~= (a + b).update(i, v));
}

/// The first `n` bands after making dot `(x, y)` black: unchanged up to the
/// dot's band, one byte updated after it.
proof fn lemma_encoded_bands_with_dot(m: BitmapModel, mode: u8, x: int, y: int, n: nat)
    requires
        m.wf(),
        m.in_bounds(x, y),
    ensures
        encoded_bands(m.with_dot(x, y), mode, n) == (if n <= y / 8 {
            encoded_bands(m, mode, n)
        } else {
            encoded_bands(m, mode, n).update(
                (y / 8) * (m.width + 6) + 5 + x,
                column_byte(m, x, y / 8) | pin_mask(y % 8),
            )
        }),
    decreases n,
{
    let m2 = m.with_dot(x, y);
    let w = m.width + 6;
    let tb = y / 8;
    if n > 0 {
        let k = n - 1;
        lemma_encoded_bands_with_dot(m, mode, x, y, k as nat);
        lemma_encoded_bands(m, mode, k as nat);
        let v = column_byte(m, x, tb) | pin_mask(y % 8);
        assert forall|xc: int| 0 <= xc < m.width implies #[trigger] column_byte(m2, xc, k)
            == (if xc == x && k == tb {
            v
        } else {
            column_byte(m, xc, k)
        }) by {
            lemma_column_bits_with_dot(m, x, y, xc, k, 8);
        }
        let b1 = band_bytes(m, mode, k);
        let b2 = band_bytes(m2, mode, k);
        if k == tb {
            assert(b2 =~= b1.update(5 + x, v));
            assert(k * w == tb * w);
            assert(encoded_bands(m, mode, k as nat) + b1.update(5 + x, v) =~= (encoded_bands(
                m,
                mode,
                k as nat,
            ) + b1).update(k * w + 5 + x, v));
        } else {
            assert(b2 =~= b1);
            if k > tb {
                assert(tb * w + 5 + x < k * w) by (nonlinear_arith)
                    requires
                        tb < k,
                        0 <= x < m.width,
                        w == m.width + 6,
                ;
                assert(0 <= tb * w) by (nonlinear_arith)
                    requires
                        0 <= tb,
                        0 <= w,
                ;
                lemma_update_append(encoded_bands(m, mode, k as nat), b1, tb * w + 5 + x, v);
            }
        }
    }
}

/// Making one dot inside the bitmap black changes exactly one bit of one byte
/// of its bit image: bit `7 - y % 8` of the byte for column `x` in band
/// `y / 8`.
pub proof fn law_set_changes_one_bit(m: BitmapModel, mode: u8, x: int, y: int)
    requires
        m.wf(),
        m.in_bounds(x, y),
    ensures
        ({
            let e1 = bit_image(m, mode);
            let e2 = bit_image(m.with_dot(x, y), mode);
            let i = (y / 8) * (m.width + 6) + 5 + x;
            &&& e2.len() == e1.len()
            &&& 0 <= i < e1.len()
            &&& e2[i] == e1[i] | (0x80u8 >> (y % 8) as u8)
            &&& forall|j: int| 0 <= j < e1.len() && j != i ==> e2[j] == e1[j]
        }),
{
    let bands = band_count(m.height);
    let w = m.width + 6;
    let tb = y / 8;
    lemma_encoded_bands_with_dot(m, mode, x, y, bands);
    lemma_encoded_bands(m, mode, bands);
    assert(tb < bands);
    assert(0 <= tb * w) by (nonlinear_arith)
        requires
            0 <= tb,
            0 <= w,
    ;
    assert(tb * w + w <= bands * w) by (nonlinear_arith)
        requires
            tb + 1 <= bands,
            0 <= w,
    ;
    let e1 = bit_image(m, mode);
    let i = tb * w + 5 + x;
    assert(e1.subrange(tb * w, (tb + 1) * w) == band_bytes(m, mode, tb));
    assert((tb + 1) * w == tb * w + w) by (nonlinear_arith);
    assert(e1[i] == e1.subrange(tb * w, (tb + 1) * w)[5 + x]);
    let j = (y % 8) as u8;
    assert(0x80u8 >> j == 1u8 << (7 - j) as u8) by (bit_vector)
        requires
            j < 8,
    ;
}

/// A blank bitmap is white everywhere and well formed.
pub proof fn law_blank(width: nat, height: nat, x: int, y: int)
    ensures
        BitmapModel::blank(width, height).wf(),
        !BitmapModel::blank(width, height).dot(x, y),
        BitmapModel::blank(width, height).width == width,
        BitmapModel::blank(width, height).height == height,
{
}

} // verus!
