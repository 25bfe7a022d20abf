//! A 3x3 box blur over an RGB image with 8-bit channels.
use vstd::arithmetic::div_mod::lemma_fundamental_div_mod;
use vstd::prelude::*;

verus! {

/// The value every channel of a fresh image holds.
pub const FILL: u8 = 128;

/// A `width` x `height` image, three interleaved 8-bit channels per pixel,
/// stored row by row.
pub struct Image {
    pub width: usize,
    pub height: usize,
    pub data: Vec<u8>,
}

/// Offset of channel `c` of pixel `(x, y)` in a buffer of rows `w` pixels wide.
pub open spec fn offset(w: int, x: int, y: int, c: int) -> int {
    (y * w + x) * 3 + c
}

proof fn lemma_offset_bounds(w: int, h: int, x: int, y: int, c: int)
    requires
        0 <= x < w,
        0 <= y < h,
        0 <= c < 3,
    ensures
        0 <= y * w,
        y * w + x < w * h,
        0 <= w * h,
        0 <= offset(w, x, y, c),
        offset(w, x, y, 0) + 3 <= w * h * 3,
{
    assert(0 <= y * w) by (nonlinear_arith)
        requires
            0 <= y,
            0 <= w,
    ;
    assert(y * w + x + 1 <= h * w) by (nonlinear_arith)
        requires
            0 <= x < w,
            0 <= y < h,
    ;
    assert(h * w == w * h) by (nonlinear_arith);
}

proof fn lemma_offset_injective(w: int, x1: int, y1: int, c1: int, x2: int, y2: int, c2: int)
    requires
        0 <= x1 < w,
        0 <= x2 < w,
        0 <= y1,
        0 <= y2,
        0 <= c1 < 3,
        0 <= c2 < 3,
        offset(w, x1, y1, c1) == offset(w, x2, y2, c2),
    ensures
        x1 == x2,
        y1 == y2,
        c1 == c2,
{
    let a1 = y1 * w + x1;
    let a2 = y2 * w + x2;
    assert(a1 == a2 && c1 == c2);
    assert(y1 == y2) by (nonlinear_arith)
        requires
            0 <= x1 < w,
            0 <= x2 < w,
            y1 * w + x1 == y2 * w + x2,
    ;
}

/// Every position of a buffer of `w * h` pixels is the offset of exactly one
/// channel of one pixel.
proof fn lemma_offset_onto(w: int, h: int, i: int) -> (p: (int, int, int))
    requires
        0 < w,
        0 <= i < w * h * 3,
    ensures
        0 <= p.0 < w,
        0 <= p.1 < h,
        0 <= p.2 < 3,
        offset(w, p.0, p.1, p.2) == i,
{
    let q = i / 3;
    let c = i % 3;
    lemma_fundamental_div_mod(i, 3);
    let y = q / w;
    let x = q % w;
    lemma_fundamental_div_mod(q, w);
    assert(0 <= x < w) by (nonlinear_arith)
        requires
            0 < w,
            x == q % w,
    ;
    assert(0 <= q < w * h) by (nonlinear_arith)
        requires
            q == i / 3,
            0 <= i < w * h * 3,
    ;
    assert(0 <= y < h) by (nonlinear_arith)
        requires
            0 < w,
            0 <= x < w,
            0 <= q < w * h,
            q == w * y + x,
    ;
    assert(offset(w, x, y, c) == i) by (nonlinear_arith)
        requires
            q == w * y + x,
            i == 3 * q + c,
    ;
    (x, y, c)
}

impl Image {
    /// The buffer holds exactly three channels for every pixel.
    pub open spec fn wf(&self) -> bool {
        &&& self.data@.len() == self.width * self.height * 3
        &&& self.width * self.height * 3 <= usize::MAX
    }

    pub open spec fn in_bounds(&self, x: int, y: int) -> bool {
        0 <= x < self.width && 0 <= y < self.height
    }

    /// Channel `c` of pixel `(x, y)`.
    pub open spec fn at(&self, x: int, y: int, c: int) -> u8 {
        self.data@[offset(self.width as int, x, y, c)]
    }

    /// A `width` x `height` image with every channel set to `FILL`.
    pub fn new(width: usize, height: usize) -> (r: Image)
        requires
            width * height * 3 <= usize::MAX,
        ensures
            r.width == width,
            r.height == height,
            r.wf(),
            forall|i: int| 0 <= i < r.data@.len() ==> #[trigger] r.data@[i] == FILL,
    {
        assert(0 <= width * height) by (nonlinear_arith);
        let len = width * height * 3;
        let mut data: Vec<u8> = Vec::new();
        let mut i: usize = 0;
        while i < len
            invariant
                i <= len,
                data@.len() == i,
                forall|j: int| 0 <= j < i ==> #[trigger] data@[j] == FILL,
            decreases len - i,
        {
            data.push(FILL);
            i = i + 1;
        }
        Image { width, height, data }
    }

    /// Channel `c` of pixel `(x, y)`.
    pub fn channel(&self, x: usize, y: usize, c: usize) -> (r: u8)
        requires
            self.wf(),
            self.in_bounds(x as int, y as int),
            c < 3,
        ensures
            r == self.at(x as int, y as int, c as int),
    {
        proof {
            lemma_offset_bounds(self.width as int, self.height as int, x as int, y as int, c as int);
        }
        self.data[(y * self.width + x) * 3 + c]
    }

    /// The three channels of pixel `(x, y)`.
    pub fn get_pixel(&self, x: usize, y: usize) -> (r: [u8; 3])
        requires
            self.wf(),
            self.in_bounds(x as int, y as int),
        ensures
            forall|c: int| 0 <= c < 3 ==> #[trigger] r@[c] == self.at(x as int, y as int, c),
    {
        let r = [self.channel(x, y, 0), self.channel(x, y, 1), self.channel(x, y, 2)];
        assert(forall|c: int| 0 <= c < 3 ==> #[trigger] r@[c] == self.at(x as int, y as int, c));
        r
    }

    /// Overwrites the three channels of pixel `(x, y)`; no other pixel changes.
    pub fn set_pixel(&mut self, x: usize, y: usize, color: [u8; 3])
        requires
            old(self).wf(),
            old(self).in_bounds(x as int, y as int),
        ensures
            final(self).width == old(self).width,
            final(self).height == old(self).height,
            final(self).wf(),
            forall|px: int, py: int, c: int|
                old(self).in_bounds(px, py) && 0 <= c < 3 ==> #[trigger] final(self).at(px, py, c)
                    == if px == x && py == y {
                    color@[c]
                } else {
                    old(self).at(px, py, c)
                },
    {
        proof {
            lemma_offset_bounds(self.width as int, self.height as int, x as int, y as int, 0);
        }
        let idx = (y * self.width + x) * 3;
        self.data.set(idx, color[0]);
        self.data.set(idx + 1, color[1]);
        self.data.set(idx + 2, color[2]);
        proof {
            let w = self.width as int;
            assert forall|px: int, py: int, c: int|
                old(self).in_bounds(px, py) && 0 <= c < 3 implies #[trigger] self.at(px, py, c)
                    == if px == x && py == y {
                    color@[c]
                } else {
                    old(self).at(px, py, c)
                } by {
                lemma_offset_bounds(w, self.height as int, px, py, c);
                if !(px == x && py == y) {
                    if offset(w, px, py, c) == offset(w, x as int, y as int, 0) {
                        lemma_offset_injective(w, px, py, c, x as int, y as int, 0);
                    }
                    if offset(w, px, py, c) == offset(w, x as int, y as int, 1) {
                        lemma_offset_injective(w, px, py, c, x as int, y as int, 1);
                    }
                    if offset(w, px, py, c) == offset(w, x as int, y as int, 2) {
                        lemma_offset_injective(w, px, py, c, x as int, y as int, 2);
                    }
                }
            }
        }
    }
}

/// `(x, y)` has all eight neighbours inside `img`: it is off the 1-pixel border.
pub open spec fn is_interior(img: &Image, x: int, y: int) -> bool {
    1 <= x && x + 1 < img.width && 1 <= y && y + 1 < img.height
}

/// The sum of channel `c` over the 3x3 neighbourhood centred on `(x, y)`.
pub open spec fn box_sum(img: &Image, x: int, y: int, c: int) -> int {
    img.at(x - 1, y - 1, c) + img.at(x, y - 1, c) + img.at(x + 1, y - 1, c) + img.at(x - 1, y, c)
        + img.at(x, y, c) + img.at(x + 1, y, c) + img.at(x - 1, y + 1, c) + img.at(x, y + 1, c)
        + img.at(x + 1, y + 1, c)
}

/// What channel `c` of pixel `(x, y)` holds after blurring `src`: the truncated
/// average of the neighbourhood inside, the fill value on the border.
pub open spec fn blurred_at(src: &Image, x: int, y: int, c: int) -> u8 {
    if is_interior(src, x, y) {
        (box_sum(src, x, y, c) / 9) as u8
    } else {
        FILL
    }
}

/// `dst` is the box blur of `src` into a freshly filled image.
pub open spec fn is_blur_of(dst: &Image, src: &Image) -> bool {
    &&& dst.wf()
    &&& dst.width == src.width
    &&& dst.height == src.height
    &&& forall|x: int, y: int, c: int|
        src.in_bounds(x, y) && 0 <= c < 3 ==> #[trigger] dst.at(x, y, c) == blurred_at(src, x, y, c)
}

/// The blur of an image is fully determined by the source: any two results
/// that meet `is_blur_of` for the same source hold the same bytes, so the
/// row-parallel blur and the sequential blur agree exactly.
pub proof fn lemma_blur_unique(src: &Image, a: &Image, b: &Image)
    requires
        is_blur_of(a, src),
        is_blur_of(b, src),
    ensures
        a.data@ == b.data@,
{
    if src.width > 0 {
        assert forall|i: int| 0 <= i < a.data@.len() implies a.data@[i] == b.data@[i] by {
            let p = lemma_offset_onto(src.width as int, src.height as int, i);
            assert(a.at(p.0, p.1, p.2) == b.at(p.0, p.1, p.2));
        }
    } else {
        assert(src.width * src.height * 3 == 0) by (nonlinear_arith)
            requires
                src.width == 0,
        ;
    }
    assert(a.data@ =~= b.data@);
}

/// `dst` holds the blur of `src` on the interior pixels that come before
/// `(x, y)` in row-major order, and the fill value everywhere else.
pub open spec fn blurred_before(dst: &Image, src: &Image, x: int, y: int) -> bool {
    &&& dst.wf()
    &&& dst.width == src.width
    &&& dst.height == src.height
    &&& forall|px: int, py: int, c: int|
        src.in_bounds(px, py) && 0 <= c < 3 ==> #[trigger] dst.at(px, py, c) == if is_interior(
            src,
            px,
            py,
        ) && (py < y || (py == y && px < x)) {
            blurred_at(src, px, py, c)
        } else {
            FILL
        }
}

/// The sum of channel `c` over the neighbourhood of an interior pixel.
fn neighbourhood_sum(img: &Image, x: usize, y: usize, c: usize) -> (r: u16)
    requires
        img.wf(),
        is_interior(img, x as int, y as int),
        c < 3,
    ensures
        r as int == box_sum(img, x as int, y as int, c as int),
{
    let mut sum: u16 = 0;
    let mut dy: usize = 0;
    while dy < 3
        invariant
            img.wf(),
            is_interior(img, x as int, y as int),
            c < 3,
            dy <= 3,
            sum as int == row_sums(img, x as int, y as int, c as int, dy as int),
            sum <= 765 * dy,
        decreases 3 - dy,
    {
        let row = y + dy - 1;
        sum = sum + img.channel(x - 1, row, c) as u16 + img.channel(x, row, c) as u16
            + img.channel(x + 1, row, c) as u16;
        dy = dy + 1;
    }
    proof {
        reveal_with_fuel(row_sums, 4);
    }
    sum
}

/// The sum of channel `c` over the first `rows` rows of the neighbourhood of
/// `(x, y)`.
spec fn row_sums(img: &Image, x: int, y: int, c: int, rows: int) -> int
    decreases rows,
{
    if rows <= 0 {
        0
    } else {
        let py = y + rows - 2;
        row_sums(img, x, y, c, rows - 1) + img.at(x - 1, py, c) + img.at(x, py, c) + img.at(
            x + 1,
            py,
            c,
        )
    }
}

/// The blurred colour of an interior pixel.
pub fn blur_pixel(img: &Image, x: usize, y: usize) -> (r: [u8; 3])
    requires
        img.wf(),
        is_interior(img, x as int, y as int),
    ensures
        forall|c: int| 0 <= c < 3 ==> #[trigger] r@[c] == blurred_at(img, x as int, y as int, c),
{
    let r = [
        (neighbourhood_sum(img, x, y, 0) / 9) as u8,
        (neighbourhood_sum(img, x, y, 1) / 9) as u8,
        (neighbourhood_sum(img, x, y, 2) / 9) as u8,
    ];
    assert(forall|c: int| 0 <= c < 3 ==> #[trigger] r@[c] == blurred_at(img, x as int, y as int, c));
    r
}

/// Blurs `img` on the calling thread, row by row, left to right.
pub fn apply_filter_sequential(img: &Image) -> (r: Image)
    requires
        img.wf(),
    ensures
        is_blur_of(&r, img),
{
    let mut result = Image::new(img.width, img.height);
    proof {
        assert forall|px: int, py: int, c: int|
            img.in_bounds(px, py) && 0 <= c < 3 implies #[trigger] result.at(px, py, c) == FILL by {
            lemma_offset_bounds(img.width as int, img.height as int, px, py, c);
        }
    }
    let mut y: usize = 1;
    while y + 1 < img.height
        invariant
            img.wf(),
            1 <= y,
            y == 1 || y < img.height,
            blurred_before(&result, img, 0, y as int),
        decreases img.height - y,
    {
        let mut x: usize = 1;
        while x + 1 < img.width
            invariant
                img.wf(),
                1 <= x,
                1 <= y,
                y + 1 < img.height,
                x == 1 || x < img.width,
                blurred_before(&result, img, x as int, y as int),
            decreases img.width - x,
        {
            let color = blur_pixel(img, x, y);
            result.set_pixel(x, y, color);
            x = x + 1;
        }
        y = y + 1;
    }
    result
}

/// Row `y` of the blurred image, three channels per pixel: the work of one
/// parallel task, which reads `img` and owns the row it returns.
pub fn blur_row(img: &Image, y: usize) -> (r: Vec<u8>)
    requires
        img.wf(),
        1 <= y,
        y + 1 < img.height,
    ensures
        r@.len() == img.width * 3,
        forall|x: int, c: int|
            0 <= x < img.width && 0 <= c < 3 ==> #[trigger] r@[x * 3 + c] == blurred_at(
                img,
                x,
                y as int,
                c,
            ),
{
    let mut row: Vec<u8> = Vec::new();
    let mut x: usize = 0;
    while x < img.width
        invariant
            img.wf(),
            1 <= y,
            y + 1 < img.height,
            x <= img.width,
            row@.len() == x * 3,
            forall|px: int, c: int|
                0 <= px < x && 0 <= c < 3 ==> #[trigger] row@[px * 3 + c] == blurred_at(
                    img,
                    px,
                    y as int,
                    c,
                ),
        decreases img.width - x,
    {
        if 1 <= x && x + 1 < img.width {
            let color = blur_pixel(img, x, y);
            row.push(color[0]);
            row.push(color[1]);
            row.push(color[2]);
        } else {
            row.push(FILL);
            row.push(FILL);
            row.push(FILL);
        }
        x = x + 1;
    }
    row
}

/// Blurs `img` on the thread pool: every interior row is computed by its own
/// task from the shared, read-only source, and the finished rows are then
/// written into a fresh image. The result is the same image as the
/// sequential blur.
pub fn apply_filter_parallel(img: &Image) -> (r: Image)
    requires
        img.wf(),
    ensures
        is_blur_of(&r, img),
{
    let mut result = Image::new(img.width, img.height);
    proof {
        assert forall|px: int, py: int, c: int|
            img.in_bounds(px, py) && 0 <= c < 3 implies #[trigger] result.at(px, py, c) == FILL by {
            lemma_offset_bounds(img.width as int, img.height as int, px, py, c);
        }
    }
    let hi: usize = if img.height >= 2 {
        img.height - 1
    } else {
        1
    };
    let task = (|y: usize| -> (r: Vec<u8>)
        requires
            img.wf(),
            1 <= y < hi,
            hi + 1 <= img.height,
        ensures
            r@.len() == img.width * 3,
            forall|x: int, c: int|
                0 <= x < img.width && 0 <= c < 3 ==> #[trigger] r@[x * 3 + c] == blurred_at(
                    img,
                    x,
                    y as int,
                    c,
                ),
        { blur_row(img, y) });
    let rows = crate::parallel::par_map_range(1, hi, task);
    proof {
        assert forall|i: int| 0 <= i < hi - 1 implies #[trigger] rows@[i]@.len() == img.width * 3
            && forall|x: int, c: int|
            0 <= x < img.width && 0 <= c < 3 ==> #[trigger] rows@[i]@[x * 3 + c] == blurred_at(
                img,
                x,
                i + 1,
                c,
            ) by {
            assert(task.ensures(((1 + i) as usize,), rows@[i]));
        }
    }
    let mut y: usize = 1;
    while y < hi
        invariant
            img.wf(),
            1 <= y <= hi,
            hi == 1 || hi + 1 == img.height,
            rows@.len() == hi - 1,
            forall|i: int|
                0 <= i < hi - 1 ==> #[trigger] rows@[i]@.len() == img.width * 3 && forall|
                    x: int,
                    c: int,
                |
                    0 <= x < img.width && 0 <= c < 3 ==> #[trigger] rows@[i]@[x * 3 + c]
                        == blurred_at(img, x, i + 1, c),
            blurred_before(&result, img, 0, y as int),
        decreases hi - y,
    {
        let row = &rows[y - 1];
        assert(img.width * 3 <= img.width * img.height * 3) by (nonlinear_arith)
            requires
                img.height >= 1,
        ;
        let mut x: usize = 1;
        while x + 1 < img.width
            invariant
                img.wf(),
                1 <= x,
                1 <= y < hi,
                hi + 1 == img.height,
                x == 1 || x < img.width,
                img.width * 3 <= usize::MAX,
                row@.len() == img.width * 3,
                forall|px: int, c: int|
                    0 <= px < img.width && 0 <= c < 3 ==> #[trigger] row@[px * 3 + c]
                        == blurred_at(img, px, y as int, c),
                blurred_before(&result, img, x as int, y as int),
            decreases img.width - x,
        {
            let color = [row[x * 3], row[x * 3 + 1], row[x * 3 + 2]];
            assert(row@[x * 3 + 0] == blurred_at(img, x as int, y as int, 0));
            assert(row@[x * 3 + 1] == blurred_at(img, x as int, y as int, 1));
            assert(row@[x * 3 + 2] == blurred_at(img, x as int, y as int, 2));
            assert(forall|c: int|
                0 <= c < 3 ==> #[trigger] color@[c] == blurred_at(img, x as int, y as int, c));
            result.set_pixel(x, y, color);
            x = x + 1;
        }
        y = y + 1;
    }
    result
}

} // verus!
