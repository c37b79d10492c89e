use vstd::arithmetic::div_mod::lemma_fundamental_div_mod_converse;
use vstd::prelude::*;

use crate::grid::PixelGrid;

verus! {

/// Error from `encode`: a grid dimension does not fit the one-byte
/// width or height field of a frame.
#[derive(Clone, Copy, Debug, PartialEq, Eq, Structural)]
pub enum EncodeError {
    DimensionTooLarge,
}

/// The encoded form of one pixel grid. Byte 0 is the width, byte 1 the
/// height; each following byte packs up to 8 horizontally consecutive
/// pixels of one row, most significant bit first. Rows are
/// right-padded with zero bits to the next byte boundary, so the
/// payload holds exactly `height * ceil(width / 8)` bytes and padding
/// bits are never shared across rows.
pub struct Bytes(pub Vec<u8>);

impl View for Bytes {
    type V = Seq<u8>;

    open spec fn view(&self) -> Seq<u8> {
        self.0@
    }
}

/// Number of payload bytes needed for one row of `w` pixels.
pub open spec fn bytes_per_row(w: int) -> int {
    (w + 7) / 8
}

/// The bit packed for column `x` of row `y`: 1 for a white (non-zero)
/// pixel inside the row, 0 for a black pixel or a padding position at
/// or past the row's width.
pub open spec fn grid_bit(g: PixelGrid, x: int, y: int) -> u8 {
    if x < g.width && g.pixel(x, y) != 0 {
        1
    } else {
        0
    }
}

/// Payload byte `j` of row `y`: the bits for columns `8j .. 8j + 8`,
/// most significant bit first.
pub open spec fn payload_byte(g: PixelGrid, j: int, y: int) -> u8 {
    (grid_bit(g, 8 * j, y) * 128 + grid_bit(g, 8 * j + 1, y) * 64 + grid_bit(g, 8 * j + 2, y) * 32
        + grid_bit(g, 8 * j + 3, y) * 16 + grid_bit(g, 8 * j + 4, y) * 8
        + grid_bit(g, 8 * j + 5, y) * 4 + grid_bit(g, 8 * j + 6, y) * 2
        + grid_bit(g, 8 * j + 7, y)) as u8
}

/// The whole frame encoding grid `g`: width, height, then the packed
/// payload, row by row.
pub open spec fn frame_spec(g: PixelGrid) -> Seq<u8> {
    Seq::new(
        (2 + g.height * bytes_per_row(g.width as int)) as nat,
        |i: int|
            if i == 0 {
                g.width as u8
            } else if i == 1 {
                g.height as u8
            } else {
                payload_byte(
                    g,
                    (i - 2) % bytes_per_row(g.width as int),
                    (i - 2) / bytes_per_row(g.width as int),
                )
            },
    )
}

/// Bit `i` of byte `b`, counting the most significant bit as bit 0.
pub open spec fn bit_of_byte(b: u8, i: int) -> u8 {
    (b >> ((7 - i) as u8)) & 1
}

impl Bytes {
    /// The frame invariant: a width byte, a height byte, and exactly
    /// `height * ceil(width / 8)` payload bytes.
    pub open spec fn wf(&self) -> bool {
        self@.len() >= 2 && self@.len() == 2 + (self@[1] as int) * bytes_per_row(self@[0] as int)
    }
}

/// Extracting any of the eight packed bits gives back the bit that was
/// packed. The packed byte is `v0 * 128 + v1 * 64 + ... + v7`, so bit
/// `i` (most significant first) is `vi`.
proof fn lemma_bit_of_packed(v0: u8, v1: u8, v2: u8, v3: u8, v4: u8, v5: u8, v6: u8, v7: u8, i: int)
    requires
        v0 <= 1,
        v1 <= 1,
        v2 <= 1,
        v3 <= 1,
        v4 <= 1,
        v5 <= 1,
        v6 <= 1,
        v7 <= 1,
        0 <= i < 8,
    ensures
        bit_of_byte(
            (v0 * 128 + v1 * 64 + v2 * 32 + v3 * 16 + v4 * 8 + v5 * 4 + v6 * 2 + v7) as u8,
            i,
        ) == (if i == 0 {
            v0
        } else if i == 1 {
            v1
        } else if i == 2 {
            v2
        } else if i == 3 {
            v3
        } else if i == 4 {
            v4
        } else if i == 5 {
            v5
        } else if i == 6 {
            v6
        } else {
            v7
        }),
{
    let b = (v0 * 128 + v1 * 64 + v2 * 32 + v3 * 16 + v4 * 8 + v5 * 4 + v6 * 2 + v7) as u8;
    assert((b >> 7u8) & 1 == v0 && (b >> 6u8) & 1 == v1 && (b >> 5u8) & 1 == v2 && (b >> 4u8) & 1
        == v3 && (b >> 3u8) & 1 == v4 && (b >> 2u8) & 1 == v5 && (b >> 1u8) & 1 == v6 && (b >> 0u8)
        & 1 == v7) by (bit_vector)
        requires
            b == (v0 * 128 + v1 * 64 + v2 * 32 + v3 * 16 + v4 * 8 + v5 * 4 + v6 * 2 + v7) as u8,
            v0 <= 1,
            v1 <= 1,
            v2 <= 1,
            v3 <= 1,
            v4 <= 1,
            v5 <= 1,
            v6 <= 1,
            v7 <= 1,
    ;
}

/// The packed bit for column `x` of row `y`, as 0 or 1; columns at or
/// past the grid width pack the zero padding bit.
fn pixel_bit(grid: &PixelGrid, x: usize, y: usize) -> (r: u8)
    requires
        grid.wf(),
        y < grid.height,
    ensures
        r == grid_bit(*grid, x as int, y as int),
        r <= 1,
{
    if x < grid.width {
        let n = grid.pixels.len();
        proof {
            assert(y * grid.width + x < grid.width * grid.height) by (nonlinear_arith)
                requires
                    x < grid.width,
                    y < grid.height,
                    0 <= x,
                    0 <= y,
            ;
        }
        let idx = y * grid.width + x;
        if grid.pixels[idx] > 0 {
            1
        } else {
            0
        }
    } else {
        0
    }
}

/// Payload byte `j` of row `y`, built most-significant-bit first, as
/// the frame layout asks.
fn row_byte(grid: &PixelGrid, j: usize, y: usize) -> (r: u8)
    requires
        grid.wf(),
        y < grid.height,
        grid.width <= 255,
        j < bytes_per_row(grid.width as int),
    ensures
        r == payload_byte(*grid, j as int, y as int),
{
    let base = j * 8;
    let v0 = pixel_bit(grid, base, y);
    let v1 = pixel_bit(grid, base + 1, y);
    let v2 = pixel_bit(grid, base + 2, y);
    let v3 = pixel_bit(grid, base + 3, y);
    let v4 = pixel_bit(grid, base + 4, y);
    let v5 = pixel_bit(grid, base + 5, y);
    let v6 = pixel_bit(grid, base + 6, y);
    let v7 = pixel_bit(grid, base + 7, y);
    v0 * 128 + v1 * 64 + v2 * 32 + v3 * 16 + v4 * 8 + v5 * 4 + v6 * 2 + v7
}

/// Packs a pixel grid into a frame. Succeeds exactly when both
/// dimensions fit in one byte; the frame then carries the dimensions
/// and the row-padded, most-significant-bit-first packed payload of
/// `height * ceil(width / 8)` bytes.
pub fn encode(grid: &PixelGrid) -> (r: Result<Bytes, EncodeError>)
    requires
        grid.wf(),
    ensures
        r is Ok <==> grid.width <= 255 && grid.height <= 255,
        r matches Ok(f) ==> f@ == frame_spec(*grid) && f.wf(),
        // the payload is always exactly height * ceil(width / 8) bytes
        r matches Ok(f) ==> f@.len() == 2 + grid.height * bytes_per_row(grid.width as int),
        r matches Err(e) ==> e == EncodeError::DimensionTooLarge,
{
    if grid.width > 255 || grid.height > 255 {
        return Err(EncodeError::DimensionTooLarge);
    }
    let w = grid.width;
    let h = grid.height;
    let bpr = (w + 7) / 8;
    let ghost gbpr = bytes_per_row(w as int);
    let mut out: Vec<u8> = Vec::new();
    out.push(w as u8);
    out.push(h as u8);
    let mut y: usize = 0;
    while y < h
        invariant
            grid.wf(),
            w == grid.width,
            h == grid.height,
            w <= 255,
            h <= 255,
            bpr == gbpr,
            gbpr == bytes_per_row(w as int),
            y <= h,
            out@.len() == 2 + y * gbpr,
            out@[0] == w as u8,
            out@[1] == h as u8,
            forall|k: int|
                0 <= k < y * gbpr ==> #[trigger] out@[2 + k] == payload_byte(*grid, k % gbpr, k / gbpr),
        decreases h - y,
    {
        let mut j: usize = 0;
        while j < bpr
            invariant
                grid.wf(),
                w == grid.width,
                h == grid.height,
                w <= 255,
                h <= 255,
                bpr == gbpr,
                gbpr == bytes_per_row(w as int),
                y < h,
                j <= bpr,
                out@.len() == 2 + y * gbpr + j,
                out@[0] == w as u8,
                out@[1] == h as u8,
                forall|k: int|
                    0 <= k < y * gbpr + j ==> #[trigger] out@[2 + k] == payload_byte(*grid, k % gbpr, k / gbpr),
            decreases bpr - j,
        {
            let b = row_byte(grid, j, y);
            out.push(b);
            proof {
                lemma_fundamental_div_mod_converse(
                    y * gbpr + j,
                    gbpr,
                    y as int,
                    j as int,
                );
            }
            j = j + 1;
        }
        proof {
            assert((y + 1) * gbpr == y * gbpr + gbpr) by (nonlinear_arith);
        }
        y = y + 1;
    }
    proof {
        assert forall|i: int| 2 <= i < out@.len() implies out@[i] == frame_spec(*grid)[i] by {
            let k = i - 2;
            assert(out@[2 + k] == payload_byte(*grid, k % gbpr, k / gbpr));
        }
        assert(out@ =~= frame_spec(*grid));
    }
    Ok(Bytes(out))
}

/// The payload bit stream of frame `f`: every payload byte expanded to
/// eight bits, most significant bit first, row padding included.
pub open spec fn payload_bits(f: Seq<u8>) -> Seq<u8> {
    Seq::new((8 * (f.len() - 2)) as nat, |k: int| bit_of_byte(f[2 + k / 8], k % 8))
}

impl Bytes {
    /// All payload bits of the frame, one value of 0 or 1 per bit,
    /// most significant bit of each byte first. Row padding is
    /// included, so the length is always a multiple of 8.
    pub fn bits(&self) -> (r: Vec<u8>)
        requires
            self@.len() >= 2,
        ensures
            r@ == payload_bits(self@),
            forall|k: int| 0 <= k < r@.len() ==> r@[k] <= 1,
    {
        let n = self.0.len();
        let mut r: Vec<u8> = Vec::new();
        let mut idx: usize = 2;
        while idx < n
            invariant
                n == self@.len(),
                2 <= idx <= n,
                r@.len() == 8 * (idx - 2),
                forall|k: int| 0 <= k < r@.len() ==> r@[k] == payload_bits(self@)[k],
                forall|k: int| 0 <= k < r@.len() ==> r@[k] <= 1,
            decreases n - idx,
        {
            let byte = self.0[idx];
            let mut i: usize = 0;
            while i < 8
                invariant
                    n == self@.len(),
                    2 <= idx < n,
                    i <= 8,
                    byte == self@[idx as int],
                    r@.len() == 8 * (idx - 2) + i,
                    forall|k: int| 0 <= k < r@.len() ==> r@[k] == payload_bits(self@)[k],
                    forall|k: int| 0 <= k < r@.len() ==> r@[k] <= 1,
                decreases 8 - i,
            {
                let shift: u8 = (7 - i) as u8;
                let bit = (byte >> shift) & 1;
                proof {
                    assert(bit <= 1) by (bit_vector)
                        requires
                            bit == (byte >> shift) & 1,
                    ;
                    assert(bit == bit_of_byte(byte, i as int));
                    lemma_fundamental_div_mod_converse(
                        8 * (idx - 2) + i,
                        8,
                        idx - 2,
                        i as int,
                    );
                }
                r.push(bit);
                i = i + 1;
            }
            idx = idx + 1;
        }
        proof {
            assert(r@ =~= payload_bits(self@));
        }
        r
    }
}

/// Round-trip law: width- and height-aware bit extraction from an
/// encoded frame reproduces the source pixels. For every column `x`
/// and row `y` of the grid, bit `x % 8` of payload byte
/// `y * ceil(w/8) + x / 8` is 1 exactly when the pixel is white.
pub proof fn lemma_encode_roundtrip(g: PixelGrid, x: int, y: int)
    requires
        g.wf(),
        g.width <= 255,
        g.height <= 255,
        0 <= x < g.width,
        0 <= y < g.height,
    ensures
        bit_of_byte(
            frame_spec(g)[2 + y * bytes_per_row(g.width as int) + x / 8],
            x % 8,
        ) == (if g.pixel(x, y) != 0 {
            1u8
        } else {
            0u8
        }),
{
    let bpr = bytes_per_row(g.width as int);
    let j = x / 8;
    let i = x % 8;
    assert(8 * bpr >= g.width);
    assert(0 <= j < bpr);
    let k = y * bpr + j;
    assert(0 <= k < g.height * bpr) by (nonlinear_arith)
        requires
            0 <= y < g.height,
            0 <= j < bpr,
            k == y * bpr + j,
    ;
    lemma_fundamental_div_mod_converse(k, bpr, y, j);
    assert(frame_spec(g)[2 + k] == payload_byte(g, j, y));
    lemma_bit_of_packed(
        grid_bit(g, 8 * j, y),
        grid_bit(g, 8 * j + 1, y),
        grid_bit(g, 8 * j + 2, y),
        grid_bit(g, 8 * j + 3, y),
        grid_bit(g, 8 * j + 4, y),
        grid_bit(g, 8 * j + 5, y),
        grid_bit(g, 8 * j + 6, y),
        grid_bit(g, 8 * j + 7, y),
        i,
    );
    assert(8 * j + i == x);
}

/// Row padding law: in a frame, every padding bit position of a row —
/// a column index from the width up to the end of the row's last
/// payload byte — extracts as 0.
pub proof fn lemma_row_padding(g: PixelGrid, y: int, k: int)
    requires
        g.wf(),
        g.width <= 255,
        g.height <= 255,
        0 <= y < g.height,
        g.width <= k < 8 * bytes_per_row(g.width as int),
    ensures
        bit_of_byte(
            frame_spec(g)[2 + y * bytes_per_row(g.width as int) + k / 8],
            k % 8,
        ) == 0,
{
    let bpr = bytes_per_row(g.width as int);
    let j = k / 8;
    let i = k % 8;
    assert(0 <= j < bpr);
    let idx = y * bpr + j;
    assert(0 <= idx < g.height * bpr) by (nonlinear_arith)
        requires
            0 <= y < g.height,
            0 <= j < bpr,
            idx == y * bpr + j,
    ;
    lemma_fundamental_div_mod_converse(idx, bpr, y, j);
    assert(frame_spec(g)[2 + idx] == payload_byte(g, j, y));
    lemma_bit_of_packed(
        grid_bit(g, 8 * j, y),
        grid_bit(g, 8 * j + 1, y),
        grid_bit(g, 8 * j + 2, y),
        grid_bit(g, 8 * j + 3, y),
        grid_bit(g, 8 * j + 4, y),
        grid_bit(g, 8 * j + 5, y),
        grid_bit(g, 8 * j + 6, y),
        grid_bit(g, 8 * j + 7, y),
        i,
    );
    assert(8 * j + i == k);
}

/// Row independence law: payload byte `j` of row `y` is a function of
/// row `y`'s pixels alone — two grids of the same dimensions that
/// agree on row `y` get the same byte there, so no bit of any other
/// row can leak into it.
pub proof fn lemma_row_independence(g1: PixelGrid, g2: PixelGrid, y: int, j: int)
    requires
        g1.wf(),
        g2.wf(),
        g1.width == g2.width,
        g1.height == g2.height,
        g1.width <= 255,
        g1.height <= 255,
        0 <= y < g1.height,
        0 <= j < bytes_per_row(g1.width as int),
        forall|x: int| 0 <= x < g1.width ==> g1.pixel(x, y) == g2.pixel(x, y),
    ensures
        frame_spec(g1)[2 + y * bytes_per_row(g1.width as int) + j] == frame_spec(g2)[2 + y
            * bytes_per_row(g2.width as int) + j],
{
    let bpr = bytes_per_row(g1.width as int);
    let k = y * bpr + j;
    assert(0 <= k < g1.height * bpr) by (nonlinear_arith)
        requires
            0 <= y < g1.height,
            0 <= j < bpr,
            k == y * bpr + j,
    ;
    lemma_fundamental_div_mod_converse(k, bpr, y, j);
    assert(frame_spec(g1)[2 + k] == payload_byte(g1, j, y));
    assert(frame_spec(g2)[2 + k] == payload_byte(g2, j, y));
    assert(forall|t: int|
        0 <= t < 8 ==> #[trigger] grid_bit(g1, 8 * j + t, y) == grid_bit(g2, 8 * j + t, y));
}

} // verus!
