use vstd::prelude::*;

verus! {

/// The model checkpoint that drives the neural operator of the viewer.
#[derive(Clone, Copy, Debug, PartialEq, Eq, Structural)]
pub enum ModelPreset {
    Untrained,
    Epoch5,
    Epoch25,
    Custom,
}

impl ModelPreset {
    /// The preset chosen by a number from the page: `0` untrained, `1` the fifth
    /// epoch, anything else the twenty-fifth.
    pub fn from_index(preset: usize) -> (p: ModelPreset)
        ensures
            p == (if preset == 0 {
                ModelPreset::Untrained
            } else if preset == 1 {
                ModelPreset::Epoch5
            } else {
                ModelPreset::Epoch25
            }),
    {
        match preset {
            0 => ModelPreset::Untrained,
            1 => ModelPreset::Epoch5,
            _ => ModelPreset::Epoch25,
        }
    }

    /// The number of the preset: `0`, `1`, `2`, `3` in declaration order.
    pub fn index(self) -> (i: usize)
        ensures
            i == match self {
                ModelPreset::Untrained => 0usize,
                ModelPreset::Epoch5 => 1usize,
                ModelPreset::Epoch25 => 2usize,
                ModelPreset::Custom => 3usize,
            },
    {
        match self {
            ModelPreset::Untrained => 0,
            ModelPreset::Epoch5 => 1,
            ModelPreset::Epoch25 => 2,
            ModelPreset::Custom => 3,
        }
    }

    /// The training epoch of the embedded checkpoint the preset loads: a custom
    /// preset falls back to the last one.
    pub fn checkpoint_epoch(self) -> (e: usize)
        ensures
            e == match self {
                ModelPreset::Untrained => 0usize,
                ModelPreset::Epoch5 => 5usize,
                _ => 25usize,
            },
    {
        match self {
            ModelPreset::Untrained => 0,
            ModelPreset::Epoch5 => 5,
            ModelPreset::Epoch25 | ModelPreset::Custom => 25,
        }
    }
}

/// The little-endian 32-bit word made of four bytes.
pub open spec fn le_word(b0: u8, b1: u8, b2: u8, b3: u8) -> int {
    b0 + 256 * b1 + 65536 * b2 + 16777216 * b3
}

/// The words of `bytes`, read as little-endian groups of four; a trailing group of
/// fewer than four bytes is dropped.
pub open spec fn le_words(bytes: Seq<u8>) -> Seq<u32> {
    Seq::new(bytes.len() / 4, |i: int| le_word(bytes[4 * i], bytes[4 * i + 1], bytes[4 * i + 2], bytes[4 * i + 3]) as u32)
}

/// Decodes a checkpoint: consecutive little-endian binary32 bit patterns.
pub fn bytes_to_words(bytes: &[u8]) -> (words: Vec<u32>)
    ensures
        words@ == le_words(bytes@),
{
    let blen = bytes.len();
    let count = blen / 4;
    let mut words: Vec<u32> = Vec::with_capacity(count);
    for i in 0..count
        invariant
            blen == bytes@.len(),
            count == bytes@.len() / 4,
            words@ == le_words(bytes@).take(i as int),
    {
        proof {
            assert(4 * i + 4 <= bytes@.len()) by (nonlinear_arith)
                requires i < count, count == bytes@.len() / 4;
        }
        let b0 = bytes[4 * i] as u32;
        let b1 = bytes[4 * i + 1] as u32;
        let b2 = bytes[4 * i + 2] as u32;
        let b3 = bytes[4 * i + 3] as u32;
        let w = b0 | (b1 << 8) | (b2 << 16) | (b3 << 24);
        assert(w == b0 + 256 * b1 + 65536 * b2 + 16777216 * b3) by (bit_vector)
            requires
                b0 < 256,
                b1 < 256,
                b2 < 256,
                b3 < 256,
                w == b0 | (b1 << 8) | (b2 << 16) | (b3 << 24);
        words.push(w);
        proof {
            assert(words@ =~= le_words(bytes@).take(i + 1));
        }
    }
    proof {
        assert(le_words(bytes@).take(count as int) =~= le_words(bytes@));
    }
    words
}

/// The width of the rendered image: the side-by-side view (mode `0`) shows two
/// fields next to each other.
pub fn render_width(width: usize, mode: usize) -> (w: usize)
    requires
        width * 2 <= usize::MAX,
    ensures
        w == if mode == 0 { 2 * width } else { width as int },
{
    if mode == 0 {
        width * 2
    } else {
        width
    }
}

/// The bytes of an RGBA buffer large enough for the side-by-side view.
pub fn render_buffer_len(width: usize, height: usize) -> (len: usize)
    requires
        width * 2 <= usize::MAX,
        width * 2 * height * 4 <= usize::MAX,
    ensures
        len == width * 2 * height * 4,
{
    proof {
        assert(width * 2 * height >= 0) by (nonlinear_arith);
        assert(width * 2 * height <= width * 2 * height * 4) by (nonlinear_arith)
            requires width * 2 * height >= 0;
    }
    width * 2 * height * 4
}

/// An opaque pixel: the colour, then full alpha.
pub open spec fn pixel_bytes(c: (u8, u8, u8)) -> Seq<u8> {
    seq![c.0, c.1, c.2, 255u8]
}

/// Writes the opaque pixel of colour `c` at byte `offset` of `buffer`.
fn put_pixel(buffer: &mut Vec<u8>, offset: usize, c: (u8, u8, u8))
    requires
        offset + 4 <= old(buffer)@.len(),
    ensures
        final(buffer)@.len() == old(buffer)@.len(),
        forall|q: int| 0 <= q < 4 ==> #[trigger] final(buffer)@[offset + q] == pixel_bytes(c)[q],
        forall|p: int| 0 <= p < old(buffer)@.len() && !(offset <= p < offset + 4) ==> #[trigger] final(buffer)@[p] == old(buffer)@[p],
{
    let len = buffer.len();
    assert(offset + 4 <= len);
    buffer.set(offset, c.0);
    buffer.set(offset + 1, c.1);
    buffer.set(offset + 2, c.2);
    buffer.set(offset + 3, 255);
}

/// Paints one viewport: pixel `i` of `colors` goes to bytes `4 * i .. 4 * i + 4`,
/// with full alpha; the rest of the buffer is left as it was.
pub fn paint_single(buffer: &mut Vec<u8>, colors: &Vec<(u8, u8, u8)>)
    requires
        4 * colors@.len() <= old(buffer)@.len(),
    ensures
        final(buffer)@.len() == old(buffer)@.len(),
        forall|i: int, q: int| 0 <= i < colors@.len() && 0 <= q < 4 ==> #[trigger] final(buffer)@[4 * i + q] == pixel_bytes(colors@[i])[q],
        forall|p: int| 4 * colors@.len() <= p < old(buffer)@.len() ==> #[trigger] final(buffer)@[p] == old(buffer)@[p],
{
    let ghost orig = buffer@;
    let n = colors.len();
    let blen = buffer.len();
    for i in 0..n
        invariant
            n == colors@.len(),
            blen == orig.len(),
            4 * n <= orig.len(),
            buffer@.len() == orig.len(),
            forall|j: int, q: int| 0 <= j < i && 0 <= q < 4 ==> #[trigger] buffer@[4 * j + q] == pixel_bytes(colors@[j])[q],
            forall|p: int| 4 * i <= p < orig.len() ==> #[trigger] buffer@[p] == orig[p],
    {
        let ghost before = buffer@;
        put_pixel(buffer, 4 * i, colors[i]);
        proof {
            assert forall|j: int, q: int| 0 <= j < i + 1 && 0 <= q < 4 implies #[trigger] buffer@[4 * j + q] == pixel_bytes(colors@[j])[q] by {
                if j < i {
                    assert(before[4 * j + q] == pixel_bytes(colors@[j])[q]);
                }
            }
        }
    }
}

/// The byte at which the pixel in row `y` and column `x` of an image `total_w`
/// pixels wide starts.
pub open spec fn pixel_offset(y: int, x: int, total_w: int) -> int {
    (y * total_w + x) * 4
}

/// Paints the side-by-side view: the `width` by `height` field `left` in the left
/// half of an image `2 * width` pixels wide, `right` in the right half.
pub fn paint_side_by_side(buffer: &mut Vec<u8>, left: &Vec<(u8, u8, u8)>, right: &Vec<(u8, u8, u8)>, width: usize, height: usize)
    requires
        left@.len() == width * height,
        right@.len() == width * height,
        width * 2 <= usize::MAX,
        width * 2 * height * 4 <= old(buffer)@.len(),
    ensures
        final(buffer)@.len() == old(buffer)@.len(),
        forall|y: int, x: int, q: int| 0 <= y < height && 0 <= x < width && 0 <= q < 4 ==>
            #[trigger] final(buffer)@[pixel_offset(y, x, 2 * width) + q] == pixel_bytes(left@[y * width + x])[q],
        forall|y: int, x: int, q: int| 0 <= y < height && 0 <= x < width && 0 <= q < 4 ==>
            #[trigger] final(buffer)@[pixel_offset(y, x + width, 2 * width) + q] == pixel_bytes(right@[y * width + x])[q],
        forall|p: int| width * 2 * height * 4 <= p < old(buffer)@.len() ==> #[trigger] final(buffer)@[p] == old(buffer)@[p],
{
    let ghost orig = buffer@;
    let total_w = width * 2;
    let n_left = left.len();
    let blen = buffer.len();
    proof {
        assert(total_w * height * 4 == width * 2 * height * 4) by (nonlinear_arith)
            requires total_w == width * 2;
    }
    for y in 0..height
        invariant
            total_w == 2 * width,
            n_left == left@.len(),
            blen == orig.len(),
            left@.len() == width * height,
            right@.len() == width * height,
            total_w * height * 4 <= orig.len(),
            buffer@.len() == orig.len(),
            forall|yy: int, x: int, q: int| 0 <= yy < y && 0 <= x < width && 0 <= q < 4 ==>
                #[trigger] buffer@[pixel_offset(yy, x, 2 * width) + q] == pixel_bytes(left@[yy * width + x])[q],
            forall|yy: int, x: int, q: int| 0 <= yy < y && 0 <= x < width && 0 <= q < 4 ==>
                #[trigger] buffer@[pixel_offset(yy, x + width, 2 * width) + q] == pixel_bytes(right@[yy * width + x])[q],
            forall|p: int| y * total_w * 4 <= p < orig.len() ==> #[trigger] buffer@[p] == orig[p],
    {
        proof {
            assert((y + 1) * total_w * 4 <= total_w * height * 4) by (nonlinear_arith)
                requires y < height;
            assert((y + 1) * total_w * 4 == y * total_w * 4 + total_w * 4) by (nonlinear_arith);
            assert(y * width + width <= width * height) by (nonlinear_arith)
                requires y < height;
        }
        for x in 0..width
            invariant
                total_w == 2 * width,
                n_left == left@.len(),
                blen == orig.len(),
                y < height,
                left@.len() == width * height,
                right@.len() == width * height,
                total_w * height * 4 <= orig.len(),
                (y + 1) * total_w * 4 <= total_w * height * 4,
                y * width + width <= width * height,
                (y + 1) * total_w * 4 == y * total_w * 4 + total_w * 4,
                buffer@.len() == orig.len(),
                forall|yy: int, xx: int, q: int| 0 <= yy < y && 0 <= xx < width && 0 <= q < 4 ==>
                    #[trigger] buffer@[pixel_offset(yy, xx, 2 * width) + q] == pixel_bytes(left@[yy * width + xx])[q],
                forall|yy: int, xx: int, q: int| 0 <= yy < y && 0 <= xx < width && 0 <= q < 4 ==>
                    #[trigger] buffer@[pixel_offset(yy, xx + width, 2 * width) + q] == pixel_bytes(right@[yy * width + xx])[q],
                forall|xx: int, q: int| 0 <= xx < x && 0 <= q < 4 ==>
                    #[trigger] buffer@[pixel_offset(y as int, xx, 2 * width) + q] == pixel_bytes(left@[y * width + xx])[q],
                forall|xx: int, q: int| 0 <= xx < x && 0 <= q < 4 ==>
                    #[trigger] buffer@[pixel_offset(y as int, xx + width, 2 * width) + q] == pixel_bytes(right@[y * width + xx])[q],
                forall|p: int| y * total_w * 4 <= p < orig.len()
                    && !(y * total_w * 4 <= p < y * total_w * 4 + 4 * x)
                    && !(y * total_w * 4 + 4 * width <= p < y * total_w * 4 + 4 * width + 4 * x)
                    ==> #[trigger] buffer@[p] == orig[p],
        {
            let idx = y * width + x;
            let out_left = (y * total_w + x) * 4;
            let out_right = (y * total_w + (x + width)) * 4;
            proof {
                assert(out_left == pixel_offset(y as int, x as int, 2 * width));
                assert(out_right == pixel_offset(y as int, x + width, 2 * width));
                assert(out_left == y * total_w * 4 + 4 * x) by (nonlinear_arith)
                    requires out_left == (y * total_w + x) * 4;
                assert(out_right == y * total_w * 4 + 4 * width + 4 * x) by (nonlinear_arith)
                    requires out_right == (y * total_w + (x + width)) * 4;
            }
            let ghost b0 = buffer@;
            put_pixel(buffer, out_left, left[idx]);
            let ghost b1 = buffer@;
            put_pixel(buffer, out_right, right[idx]);
            proof {
                assert forall|yy: int, xx: int, q: int| 0 <= yy < y && 0 <= xx < width && 0 <= q < 4 implies
                    #[trigger] buffer@[pixel_offset(yy, xx, 2 * width) + q] == pixel_bytes(left@[yy * width + xx])[q] by {
                    assert(pixel_offset(yy, xx, 2 * width) + 4 <= y * total_w * 4) by (nonlinear_arith)
                        requires yy < y, xx < width, total_w == 2 * width, 0 <= yy, 0 <= xx;
                    assert(b0[pixel_offset(yy, xx, 2 * width) + q] == buffer@[pixel_offset(yy, xx, 2 * width) + q]);
                }
                assert forall|yy: int, xx: int, q: int| 0 <= yy < y && 0 <= xx < width && 0 <= q < 4 implies
                    #[trigger] buffer@[pixel_offset(yy, xx + width, 2 * width) + q] == pixel_bytes(right@[yy * width + xx])[q] by {
                    assert(pixel_offset(yy, xx + width, 2 * width) + 4 <= y * total_w * 4) by (nonlinear_arith)
                        requires yy < y, xx < width, total_w == 2 * width, 0 <= yy, 0 <= xx;
                    assert(b0[pixel_offset(yy, xx + width, 2 * width) + q] == buffer@[pixel_offset(yy, xx + width, 2 * width) + q]);
                }
                assert forall|xx: int, q: int| 0 <= xx < x + 1 && 0 <= q < 4 implies
                    #[trigger] buffer@[pixel_offset(y as int, xx, 2 * width) + q] == pixel_bytes(left@[y * width + xx])[q] by {
                    assert(pixel_offset(y as int, xx, 2 * width) == y * total_w * 4 + 4 * xx) by (nonlinear_arith)
                        requires total_w == 2 * width;
                    if xx < x {
                        assert(b0[pixel_offset(y as int, xx, 2 * width) + q] == buffer@[pixel_offset(y as int, xx, 2 * width) + q]);
                    } else {
                        assert(b1[pixel_offset(y as int, xx, 2 * width) + q] == buffer@[pixel_offset(y as int, xx, 2 * width) + q]);
                    }
                }
                assert forall|xx: int, q: int| 0 <= xx < x + 1 && 0 <= q < 4 implies
                    #[trigger] buffer@[pixel_offset(y as int, xx + width, 2 * width) + q] == pixel_bytes(right@[y * width + xx])[q] by {
                    assert(pixel_offset(y as int, xx + width, 2 * width) == y * total_w * 4 + 4 * width + 4 * xx) by (nonlinear_arith)
                        requires total_w == 2 * width;
                    if xx < x {
                        assert(b0[pixel_offset(y as int, xx + width, 2 * width) + q] == buffer@[pixel_offset(y as int, xx + width, 2 * width) + q]);
                    }
                }
            }
        }
    }
    proof {
        assert(height * total_w * 4 == width * 2 * height * 4) by (nonlinear_arith)
            requires total_w == 2 * width;
    }
}

} // verus!
