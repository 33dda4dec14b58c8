use vstd::arithmetic::mul::lemma_mul_inequality;
use vstd::prelude::*;
use vstd::string::StringExecFns;

use crate::colors::{rgb, Color};

verus! {

/// The character of one decimal digit.
pub open spec fn digit_char(d: int) -> char {
    if d == 0 {
        '0'
    } else if d == 1 {
        '1'
    } else if d == 2 {
        '2'
    } else if d == 3 {
        '3'
    } else if d == 4 {
        '4'
    } else if d == 5 {
        '5'
    } else if d == 6 {
        '6'
    } else if d == 7 {
        '7'
    } else if d == 8 {
        '8'
    } else {
        '9'
    }
}

/// The decimal numeral of `n`, most significant digit first.
pub open spec fn dec_seq(n: int) -> Seq<char>
    decreases n,
{
    if n < 10 {
        seq![digit_char(n)]
    } else {
        dec_seq(n / 10).push(digit_char(n % 10))
    }
}

/// The numeral read off a sequence of digits held least significant first.
spec fn digits_rev_chars(ds: Seq<u8>) -> Seq<char> {
    Seq::new(ds.len(), |i: int| digit_char(ds[ds.len() - 1 - i] as int))
}

proof fn lemma_rev_chars_push(ds: Seq<u8>, d: u8)
    ensures
        digits_rev_chars(ds.push(d)) == seq![digit_char(d as int)] + digits_rev_chars(ds),
{
    assert(digits_rev_chars(ds.push(d)) =~= seq![digit_char(d as int)] + digits_rev_chars(ds));
}

/// Append the character of the digit `d` to `s`.
fn push_digit(s: &mut String, d: u8)
    requires
        d < 10,
    ensures
        final(s)@ == old(s)@.push(digit_char(d as int)),
{
    if d == 0 {
        proof {
            reveal_strlit("0");
        }
        s.append("0");
    } else if d == 1 {
        proof {
            reveal_strlit("1");
        }
        s.append("1");
    } else if d == 2 {
        proof {
            reveal_strlit("2");
        }
        s.append("2");
    } else if d == 3 {
        proof {
            reveal_strlit("3");
        }
        s.append("3");
    } else if d == 4 {
        proof {
            reveal_strlit("4");
        }
        s.append("4");
    } else if d == 5 {
        proof {
            reveal_strlit("5");
        }
        s.append("5");
    } else if d == 6 {
        proof {
            reveal_strlit("6");
        }
        s.append("6");
    } else if d == 7 {
        proof {
            reveal_strlit("7");
        }
        s.append("7");
    } else if d == 8 {
        proof {
            reveal_strlit("8");
        }
        s.append("8");
    } else {
        proof {
            reveal_strlit("9");
        }
        s.append("9");
    }
    proof {
        assert(s@ =~= old(s)@.push(digit_char(d as int)));
    }
}

/// The decimal numeral of `n` as a string.
fn decimal_string(n: u64) -> (s: String)
    ensures
        s@ == dec_seq(n as int),
{
    let mut digits: Vec<u8> = Vec::new();
    let mut m: u64 = n;
    while m >= 10
        invariant
            dec_seq(n as int) == dec_seq(m as int) + digits_rev_chars(digits@),
            forall|j: int| 0 <= j < digits@.len() ==> digits@[j] < 10,
        decreases m,
    {
        let d: u8 = (m % 10) as u8;
        proof {
            lemma_rev_chars_push(digits@, d);
            assert(dec_seq((m as int) / 10).push(digit_char((m as int) % 10))
                + digits_rev_chars(digits@) =~= dec_seq((m as int) / 10) + (seq![
                digit_char((m as int) % 10),
            ] + digits_rev_chars(digits@)));
        }
        digits.push(d);
        m = m / 10;
    }
    let d0: u8 = m as u8;
    proof {
        lemma_rev_chars_push(digits@, d0);
        assert(dec_seq(m as int) + digits_rev_chars(digits@) =~= digits_rev_chars(
            digits@.push(d0),
        ));
    }
    digits.push(d0);
    let ghost all = digits@;
    let mut s = String::new();
    let mut j: usize = digits.len();
    while j > 0
        invariant
            digits@ == all,
            dec_seq(n as int) == digits_rev_chars(all),
            j <= all.len(),
            forall|k: int| 0 <= k < all.len() ==> all[k] < 10,
            s@ == digits_rev_chars(all).take(all.len() - j),
        decreases j,
    {
        j = j - 1;
        push_digit(&mut s, digits[j]);
        proof {
            assert(digits_rev_chars(all).take(all.len() - j) =~= digits_rev_chars(all).take(
                all.len() - (j + 1),
            ).push(digit_char(all[j as int] as int)));
        }
    }
    proof {
        assert(digits_rev_chars(all).take(all.len() as int) =~= digits_rev_chars(all));
    }
    s
}

/// How many digits the numeral of `n` has.
fn digit_count(n: u8) -> (c: usize)
    ensures
        c == dec_seq(n as int).len(),
        1 <= c <= 3,
{
    if n < 10 {
        1
    } else if n < 100 {
        proof {
            assert(dec_seq((n as int) / 10).len() == 1);
        }
        2
    } else {
        proof {
            assert(dec_seq((n as int) / 10 / 10).len() == 1);
            assert(dec_seq((n as int) / 10).len() == 2);
        }
        3
    }
}

/// A channel value scaled to the PPM range: multiplied by 255, clamped to
/// `[0, 255]`, and rounded to the nearest whole value.  The channel is given
/// in thousandths, so `1000` maps to 255 and `500` to 128.
pub open spec fn clamp_channel(v: int) -> int {
    let scaled = v * 255;
    let clamped = if scaled < 0 {
        0int
    } else if scaled > 255000 {
        255000int
    } else {
        scaled
    };
    (clamped + 500) / 1000
}

/// Clamp one channel to the PPM range; the executable side of
/// `clamp_channel`.
fn ppm_clamp_color(v: i32) -> (r: u8)
    ensures
        r as int == clamp_channel(v as int),
{
    if v <= 0 {
        0
    } else {
        let w: i64 = (v as i64) * 255;
        let c: i64 = if w > 255000 {
            255000
        } else {
            w
        };
        ((c + 500) / 1000) as u8
    }
}

/// The channel values of the first `x` pixels of row `y`, each clamped to
/// the PPM range: red, green and blue of the first pixel, then of the next.
pub open spec fn row_channels(pixels: Seq<Color>, width: int, y: int, x: int) -> Seq<int>
    decreases x,
{
    if x <= 0 {
        Seq::empty()
    } else {
        row_channels(pixels, width, y, x - 1) + seq![
            clamp_channel(pixels[y * width + x - 1].red as int),
            clamp_channel(pixels[y * width + x - 1].green as int),
            clamp_channel(pixels[y * width + x - 1].blue as int),
        ]
    }
}

/// One step of the line-wrapping fold over a row's numerals.  `acc` is the
/// text so far and `cur` counts the characters since the line's start, the
/// separating newline counted with the line that follows it.  A numeral
/// moves to a new line when appending it with a space would pass column 70.
pub open spec fn wrap_from(nums: Seq<int>, acc: Seq<char>, cur: int) -> Seq<char>
    decreases nums.len(),
{
    if nums.len() == 0 {
        acc
    } else {
        let s = dec_seq(nums[0]);
        if cur + s.len() + 1 > 70 {
            wrap_from(nums.drop_first(), acc + seq!['\n'] + s, s.len() as int + 1)
        } else {
            wrap_from(nums.drop_first(), acc + seq![' '] + s, cur + 1 + s.len() as int)
        }
    }
}

/// A row's numerals separated by spaces, wrapped so that no line passes
/// column 70.
pub open spec fn wrap_row(nums: Seq<int>) -> Seq<char> {
    if nums.len() == 0 {
        Seq::empty()
    } else {
        wrap_from(nums.drop_first(), dec_seq(nums[0]), dec_seq(nums[0]).len() as int)
    }
}

/// The wrapped texts of the first `y` rows, joined by newlines.
pub open spec fn rows_text(pixels: Seq<Color>, width: int, y: int) -> Seq<char>
    decreases y,
{
    if y <= 0 {
        Seq::empty()
    } else if y == 1 {
        wrap_row(row_channels(pixels, width, 0, width))
    } else {
        rows_text(pixels, width, y - 1) + seq!['\n'] + wrap_row(
            row_channels(pixels, width, y - 1, width),
        )
    }
}

/// The PPM header: the magic number, the image size, the channel maximum.
pub open spec fn ppm_header_seq(width: int, height: int) -> Seq<char> {
    seq!['P', '3', '\n'] + dec_seq(width) + seq![' '] + dec_seq(height) + seq!['\n', '2', '5', '5']
}

/// The complete PPM text of a canvas: header, pixel rows, final newline.
pub open spec fn ppm_seq(c: Canvas) -> Seq<char> {
    ppm_header_seq(c.width as int, c.height as int) + seq!['\n'] + rows_text(
        c.pixels@,
        c.width as int,
        c.height as int,
    ) + seq!['\n']
}

/// A rectangular framebuffer of colours, stored row by row.
pub struct Canvas {
    pub width: usize,
    pub height: usize,
    pub pixels: Vec<Color>,
}

impl Canvas {
    /// A canvas is well formed when it holds exactly one colour per pixel.
    pub open spec fn wf(&self) -> bool {
        self.pixels@.len() == self.width * self.height
    }

    /// A fresh canvas of the given size, every pixel black.
    pub fn new(width: usize, height: usize) -> (c: Canvas)
        requires
            width * height <= usize::MAX,
        ensures
            c.wf(),
            c.width == width,
            c.height == height,
            forall|i: int| 0 <= i < c.pixels@.len() ==> c.pixels@[i] == rgb(0, 0, 0),
    {
        let total: usize = width * height;
        let mut pixels: Vec<Color> = Vec::new();
        let mut i: usize = 0;
        while i < total
            invariant
                i <= total,
                pixels@.len() == i,
                forall|j: int| 0 <= j < i ==> pixels@[j] == rgb(0, 0, 0),
            decreases total - i,
        {
            pixels.push(Color::new(0, 0, 0));
            i = i + 1;
        }
        Canvas { width, height, pixels }
    }

    /// The flat index of pixel `(x, y)`: rows are laid out one after another.
    fn position_to_index(&self, x: usize, y: usize) -> (i: usize)
        requires
            self.wf(),
            x < self.width,
            y < self.height,
        ensures
            i == y * self.width + x,
            i < self.pixels@.len(),
    {
        let n = self.pixels.len();
        proof {
            let w = self.width as int;
            let h = self.height as int;
            let yi = y as int;
            assert((yi + 1) * w == yi * w + w) by (nonlinear_arith);
            lemma_mul_inequality(yi + 1, h, w);
            assert(h * w == w * h) by (nonlinear_arith);
            assert(yi * w + x < w * h);
            assert(w * h == n);
        }
        y * self.width + x
    }

    /// The colour currently stored at pixel `(x, y)`.
    pub fn pixel_at(&self, x: usize, y: usize) -> (c: Color)
        requires
            self.wf(),
            x < self.width,
            y < self.height,
        ensures
            c == self.pixels@[y * self.width + x],
    {
        let i = self.position_to_index(x, y);
        self.pixels[i]
    }

    /// Store `color` at pixel `(x, y)`; no other pixel changes.
    pub fn write_pixel(&mut self, x: usize, y: usize, color: Color)
        requires
            old(self).wf(),
            x < old(self).width,
            y < old(self).height,
        ensures
            final(self).wf(),
            final(self).width == old(self).width,
            final(self).height == old(self).height,
            final(self).pixels@ == old(self).pixels@.update(
                y * old(self).width + x,
                color,
            ),
    {
        let index = self.position_to_index(x, y);
        self.pixels.set(index, color);
    }

    /// The wrapped text of row `y`.
    fn row_string(&self, y: usize) -> (r: String)
        requires
            self.wf(),
            self.width >= 1,
            y < self.height,
        ensures
            r@ == wrap_row(row_channels(self.pixels@, self.width as int, y as int, self.width as int)),
    {
        let ghost w = self.width as int;
        let mut nums: Vec<u8> = Vec::new();
        let mut x: usize = 0;
        while x < self.width
            invariant
                self.wf(),
                self.width >= 1,
                y < self.height,
                x <= self.width,
                w == self.width as int,
                nums@.len() == row_channels(self.pixels@, w, y as int, x as int).len(),
                nums@.len() == 3 * x,
                forall|i: int|
                    0 <= i < nums@.len() ==> nums@[i] as int == row_channels(
                        self.pixels@,
                        w,
                        y as int,
                        x as int,
                    )[i],
            decreases self.width - x,
        {
            let ghost nums0 = nums@;
            let ghost len0 = nums@.len() as int;
            let p = self.pixel_at(x, y);
            let a = ppm_clamp_color(p.red);
            let b = ppm_clamp_color(p.green);
            let c = ppm_clamp_color(p.blue);
            nums.push(a);
            nums.push(b);
            nums.push(c);
            proof {
                let rc0 = row_channels(self.pixels@, w, y as int, x as int);
                let rc1 = row_channels(self.pixels@, w, y as int, x as int + 1);
                assert(rc1 == rc0 + seq![
                    clamp_channel(self.pixels@[y as int * w + x].red as int),
                    clamp_channel(self.pixels@[y as int * w + x].green as int),
                    clamp_channel(self.pixels@[y as int * w + x].blue as int),
                ]);
                assert(nums@ =~= nums0 + seq![a, b, c]);
                assert(rc0.len() == len0);
                assert forall|i: int| 0 <= i < nums@.len() implies nums@[i] as int == rc1[i] by {
                    if i < len0 {
                        assert(nums@[i] == nums0[i]);
                        assert(rc1[i] == rc0[i]);
                    } else if i == len0 {
                        assert(nums@[i] == a);
                        assert(rc1[i] == clamp_channel(self.pixels@[y as int * w + x].red as int));
                    } else if i == len0 + 1 {
                        assert(nums@[i] == b);
                        assert(rc1[i] == clamp_channel(
                            self.pixels@[y as int * w + x].green as int,
                        ));
                    } else {
                        assert(nums@[i] == c);
                        assert(rc1[i] == clamp_channel(self.pixels@[y as int * w + x].blue as int));
                    }
                }
            }
            x = x + 1;
        }
        let ghost ns = row_channels(self.pixels@, w, y as int, self.width as int);
        proof {
            assert(ns.len() >= 1);
        }
        let first = nums[0];
        let mut out: String = decimal_string(first as u64);
        let mut cur: usize = digit_count(first);
        proof {
            assert(ns[0] == nums@[0] as int);
            assert(ns.drop_first() =~= ns.skip(1));
        }
        let mut k: usize = 1;
        while k < nums.len()
            invariant
                1 <= k <= nums@.len(),
                nums@.len() == ns.len(),
                forall|i: int| 0 <= i < nums@.len() ==> nums@[i] as int == ns[i],
                cur <= 70,
                wrap_row(ns) == wrap_from(ns.skip(k as int), out@, cur as int),
            decreases nums@.len() - k,
        {
            let ghost out0 = out@;
            let ghost cur0 = cur as int;
            let d = nums[k];
            let dlen = digit_count(d);
            proof {
                assert(ns.skip(k as int)[0] == nums@[k as int] as int);
                assert(ns.skip(k as int).drop_first() =~= ns.skip(k as int + 1));
            }
            if cur + dlen + 1 > 70 {
                proof {
                    reveal_strlit("\n");
                }
                out.append("\n");
                let numeral = decimal_string(d as u64);
                out.append(numeral.as_str());
                cur = dlen + 1;
                proof {
                    assert(out@ =~= out0 + seq!['\n'] + dec_seq(d as int));
                }
            } else {
                proof {
                    reveal_strlit(" ");
                }
                out.append(" ");
                let numeral = decimal_string(d as u64);
                out.append(numeral.as_str());
                cur = cur + 1 + dlen;
                proof {
                    assert(out@ =~= out0 + seq![' '] + dec_seq(d as int));
                }
            }
            k = k + 1;
        }
        proof {
            assert(ns.skip(nums@.len() as int).len() == 0);
        }
        out
    }

    /// The pixel rows of the PPM text, each wrapped, joined by newlines.
    fn ppm_pixels(&self) -> (r: String)
        requires
            self.wf(),
            self.width >= 1 || self.height == 0,
        ensures
            r@ == rows_text(self.pixels@, self.width as int, self.height as int),
    {
        let mut out = String::new();
        let mut y: usize = 0;
        while y < self.height
            invariant
                self.wf(),
                self.width >= 1 || self.height == 0,
                y <= self.height,
                out@ == rows_text(self.pixels@, self.width as int, y as int),
            decreases self.height - y,
        {
            let ghost out0 = out@;
            let row = self.row_string(y);
            if y > 0 {
                proof {
                    reveal_strlit("\n");
                }
                out.append("\n");
                out.append(row.as_str());
                proof {
                    assert(out@ =~= out0 + seq!['\n'] + row@);
                }
            } else {
                out.append(row.as_str());
            }
            y = y + 1;
        }
        out
    }

    /// The PPM header of this canvas.
    fn ppm_header(&self) -> (r: String)
        ensures
            r@ == ppm_header_seq(self.width as int, self.height as int),
    {
        proof {
            reveal_strlit("P3\n");
            reveal_strlit(" ");
            reveal_strlit("\n255");
        }
        let mut out = String::from_str("P3\n");
        let w = decimal_string(self.width as u64);
        out.append(w.as_str());
        out.append(" ");
        let h = decimal_string(self.height as u64);
        out.append(h.as_str());
        out.append("\n255");
        proof {
            assert(out@ =~= ppm_header_seq(self.width as int, self.height as int));
        }
        out
    }

    /// The canvas encoded as a plain-text PPM image: the header, then the
    /// pixel rows wrapped at column 70, then a final newline.
    pub fn to_ppm(&self) -> (r: String)
        requires
            self.wf(),
            self.width >= 1 || self.height == 0,
        ensures
            r@ == ppm_seq(*self),
    {
        proof {
            reveal_strlit("\n");
        }
        let mut out = self.ppm_header();
        out.append("\n");
        let body = self.ppm_pixels();
        out.append(body.as_str());
        out.append("\n");
        proof {
            assert(out@ =~= ppm_seq(*self));
        }
        out
    }
}

} // verus!
