//! Chunks: square blocks of 128 by 128 tiles, their generation and their
//! save format.
use vstd::prelude::*;
use crate::codec::{be_byte, be_decode, lemma_be_roundtrip};
use crate::noise::{bq_value, generate_noise_bq, trunc_div};

verus! {

/// Number of tiles of a chunk.
pub const CHUNK_TILES: usize = 16384;

/// Length of a saved chunk: one unused byte, the two coordinates, the tiles.
pub const SAVE_LEN: usize = 16393;

/// The coordinate of the chunk that holds world coordinate `v`: `v` with
/// its seven low bits cleared.
pub open spec fn corner(v: i32) -> i32 {
    v ^ (v & 127i32)
}

/// The position of world coordinate `v` inside its chunk.
pub open spec fn inner(v: i32) -> i32 {
    v & 127i32
}

/// Facts about splitting a coordinate into chunk corner and offset.
pub proof fn lemma_split(v: i32)
    ensures
        0 <= inner(v) <= 127,
        corner(v) as int + inner(v) as int == v as int,
        inner(corner(v)) == 0,
        corner(corner(v)) == corner(v),
{
    assert(0 <= v & 127i32 <= 127) by (bit_vector);
    assert((v ^ (v & 127i32)) + (v & 127i32) == v) by (bit_vector);
    assert(((v ^ (v & 127i32)) & 127i32) == 0) by (bit_vector);
    assert(((v ^ (v & 127i32)) ^ ((v ^ (v & 127i32)) & 127i32)) == (v ^ (v & 127i32))) by (bit_vector);
}

/// A coordinate inside an aligned chunk splits into that chunk and the offset.
pub proof fn lemma_split_aligned(c: i32, d: int)
    requires
        inner(c) == 0,
        0 <= d <= 127,
        c + d <= i32::MAX,
    ensures
        corner((c + d) as i32) == c,
        inner((c + d) as i32) == d,
{
    let di = d as i32;
    assert(((c + di) as i32 ^ ((c + di) as i32 & 127i32)) == c && ((c + di) as i32 & 127i32) == di)
        by (bit_vector)
        requires
            (c & 127i32) == 0,
            0 <= di <= 127,
            c + di <= 0x7fff_ffff,
    ;
}

/// A saved or generated chunk can only be made where the noise grid of its
/// origin does not overflow.
pub open spec fn generatable(cx: i32, cy: i32) -> bool {
    cx <= i32::MAX - 384 && cy <= i32::MAX - 384
}

/// The tile that terrain generation places where the weight noise is `w` and
/// the colour noise is `c`: coloured ground where the weight is positive,
/// `0x82` where it is zero, empty (`0x80`) where it is negative.
pub open spec fn tile_from_noise(w: int, c: int) -> u8 {
    if w > 0 {
        let v = trunc_div(c, 30000000);
        let v = if v < -4 {
            -4
        } else if v > 4 {
            4
        } else {
            v
        };
        (0xa0 + v + 4) as u8
    } else if w == 0 {
        0x82
    } else {
        0x80
    }
}

/// The generated tile at offset `(x, y)` of the chunk at `(cx, cy)`.
pub open spec fn generated_tile(cx: i32, cy: i32, x: int, y: int) -> u8 {
    tile_from_noise(bq_value(cx, cy, 0, x, y), bq_value(cx, cy, 1, x, y))
}

/// The tile read back from saved data: the byte after the nine-byte header,
/// or 1 (the fill of the read buffer) where the data is too short.
pub open spec fn saved_tile(data: Seq<u8>, i: int) -> u8 {
    if i + 9 < data.len() {
        data[i + 9]
    } else {
        1
    }
}

/// The tiles of a chunk loaded at `(cx, cy)` from `saved`, or generated when
/// there is no saved data.
pub open spec fn loaded_tile(cx: i32, cy: i32, saved: Option<Seq<u8>>, i: int) -> u8 {
    match saved {
        Some(data) => saved_tile(data, i),
        None => generated_tile(cx, cy, i % 128, i / 128),
    }
}

/// The bytes that `Chunk::save` writes for a chunk.
pub open spec fn save_spec(x: i32, y: i32, tiles: Seq<u8>) -> Seq<u8> {
    seq![0u8] + crate::codec::be_bytes(x) + crate::codec::be_bytes(y) + tiles
}

pub struct Chunk {
    pub x: i32,
    pub y: i32,
    pub tiles: [u8; 16384],
    pub modified: bool,
}

/// Classifies one tile from its two noise values.
fn tile_from_noise_exec(blockval: i32, color: i32) -> (t: u8)
    ensures
        t == tile_from_noise(blockval as int, color as int),
{
    if blockval > 0 {
        let mut val = color;
        val = val / 30000000;
        if val < -4 {
            val = -4;
        } else if val > 4 {
            val = 4;
        }
        val = val + 4;
        assert((0xa0i32 | val) == 0xa0i32 + val) by (bit_vector)
            requires
                0 <= val <= 8,
        ;
        (0xa0 | val) as u8
    } else if blockval == 0 {
        0x82
    } else {
        0x80
    }
}

impl Chunk {
    /// Generates the tiles of the chunk at `(wx, wy)` into `cells`.
    pub fn generate_new(cells: &mut [u8; 16384], wx: i32, wy: i32)
        requires
            generatable(wx, wy),
        ensures
            forall|i: int| 0 <= i < 16384 ==> #[trigger] final(cells)@[i] == generated_tile(wx, wy, i % 128, i / 128),
    {
        let weights = generate_noise_bq(wx, wy, 0);
        let colors = generate_noise_bq(wx, wy, 1);
        let mut i: usize = 0;
        let mut y: usize = 0;
        while y < 128
            invariant
                0 <= y <= 128,
                i == y * 128,
                forall|x: int, y: int|
                    0 <= x < 128 && 0 <= y < 128 ==> #[trigger] weights@[y * 128 + x] == bq_value(wx, wy, 0, x, y),
                forall|x: int, y: int|
                    0 <= x < 128 && 0 <= y < 128 ==> #[trigger] colors@[y * 128 + x] == bq_value(wx, wy, 1, x, y),
                forall|j: int| 0 <= j < i ==> #[trigger] cells@[j] == generated_tile(wx, wy, j % 128, j / 128),
            decreases 128 - y,
        {
            let mut x: usize = 0;
            while x < 128
                invariant
                    0 <= y < 128,
                    0 <= x <= 128,
                    i == y * 128 + x,
                    forall|x: int, y: int|
                        0 <= x < 128 && 0 <= y < 128 ==> #[trigger] weights@[y * 128 + x] == bq_value(wx, wy, 0, x, y),
                    forall|x: int, y: int|
                        0 <= x < 128 && 0 <= y < 128 ==> #[trigger] colors@[y * 128 + x] == bq_value(wx, wy, 1, x, y),
                    forall|j: int| 0 <= j < i ==> #[trigger] cells@[j] == generated_tile(wx, wy, j % 128, j / 128),
                decreases 128 - x,
            {
                let t = tile_from_noise_exec(weights[y * 128 + x], colors[y * 128 + x]);
                proof {
                    let (xi, yi, ii) = (x as int, y as int, i as int);
                    assert(ii % 128 == xi && ii / 128 == yi) by (nonlinear_arith)
                        requires
                            ii == yi * 128 + xi,
                            0 <= xi < 128,
                    ;
                    assert(weights@[yi * 128 + xi] == bq_value(wx, wy, 0, xi, yi));
                    assert(colors@[yi * 128 + xi] == bq_value(wx, wy, 1, xi, yi));
                }
                cells[i] = t;
                i = i + 1;
                x = x + 1;
            }
            y = y + 1;
        }
    }

    /// The chunk at `(x, y)`: its tiles come from `saved`, the bytes of its
    /// save file when there is one, and are generated otherwise.
    pub fn load(x: i32, y: i32, saved: Option<&[u8]>) -> (c: Chunk)
        requires
            saved is None ==> generatable(x, y),
        ensures
            c.x == x,
            c.y == y,
            !c.modified,
            forall|i: int|
                0 <= i < 16384 ==> #[trigger] c.tiles@[i] == loaded_tile(
                    x,
                    y,
                    match saved {
                        Some(d) => Some(d@),
                        None => None,
                    },
                    i,
                ),
    {
        let mut tiles: [u8; 16384] = [0u8; 16384];
        match saved {
            Some(data) => {
                let mut i: usize = 0;
                while i < CHUNK_TILES
                    invariant
                        0 <= i <= 16384,
                        forall|j: int| 0 <= j < i ==> #[trigger] tiles@[j] == saved_tile(data@, j),
                    decreases 16384 - i,
                {
                    let b = if i + 9 < data.len() {
                        data[i + 9]
                    } else {
                        1
                    };
                    tiles[i] = b;
                    i = i + 1;
                }
            },
            None => {
                Self::generate_new(&mut tiles, x, y);
            },
        }
        Chunk { x: x, y: y, tiles: tiles, modified: false }
    }

    /// The bytes of the chunk's save file: one unused zero byte, `x` and `y`
    /// big-endian, then the tiles.
    pub fn save(&self) -> (buf: Vec<u8>)
        ensures
            buf@ == save_spec(self.x, self.y, self.tiles@),
    {
        let mut buf: Vec<u8> = vec![0u8; SAVE_LEN];
        let x = self.x;
        let y = self.y;
        buf.set(1, ((x >> 24u32) & 255) as u8);
        buf.set(2, ((x >> 16u32) & 255) as u8);
        buf.set(3, ((x >> 8u32) & 255) as u8);
        buf.set(4, ((x >> 0u32) & 255) as u8);
        buf.set(5, ((y >> 24u32) & 255) as u8);
        buf.set(6, ((y >> 16u32) & 255) as u8);
        buf.set(7, ((y >> 8u32) & 255) as u8);
        buf.set(8, ((y >> 0u32) & 255) as u8);
        proof {
            assert(((x >> 24u32) & 255) as u8 == ((x as u32) >> 24u32) as u8) by (bit_vector);
            assert(((x >> 16u32) & 255) as u8 == ((x as u32) >> 16u32) as u8) by (bit_vector);
            assert(((x >> 8u32) & 255) as u8 == ((x as u32) >> 8u32) as u8) by (bit_vector);
            assert(((x >> 0u32) & 255) as u8 == (x as u32) as u8) by (bit_vector);
            assert(((y >> 24u32) & 255) as u8 == ((y as u32) >> 24u32) as u8) by (bit_vector);
            assert(((y >> 16u32) & 255) as u8 == ((y as u32) >> 16u32) as u8) by (bit_vector);
            assert(((y >> 8u32) & 255) as u8 == ((y as u32) >> 8u32) as u8) by (bit_vector);
            assert(((y >> 0u32) & 255) as u8 == (y as u32) as u8) by (bit_vector);
        }
        let mut i: usize = 0;
        while i < CHUNK_TILES
            invariant
                0 <= i <= 16384,
                buf@.len() == 16393,
                buf@[0] == 0,
                forall|k: int| 0 <= k < 4 ==> #[trigger] buf@[1 + k] == be_byte(x, k),
                forall|k: int| 0 <= k < 4 ==> #[trigger] buf@[5 + k] == be_byte(y, k),
                forall|j: int| 0 <= j < i ==> #[trigger] buf@[j + 9] == self.tiles@[j],
            decreases 16384 - i,
        {
            buf.set(i + 9, self.tiles[i]);
            i = i + 1;
        }
        let ghost s = save_spec(self.x, self.y, self.tiles@);
        assert(s.len() == 16393);
        assert forall|k: int| 0 <= k < 16393 implies #[trigger] buf@[k] == s[k] by {
            if k >= 9 {
                assert(buf@[(k - 9) + 9] == self.tiles@[k - 9]);
            } else if k >= 5 {
                assert(buf@[5 + (k - 5)] == be_byte(y, k - 5));
            } else if k >= 1 {
                assert(buf@[1 + (k - 1)] == be_byte(x, k - 1));
            }
        }
        assert(buf@ =~= s);
        buf
    }
}

/// Loading the bytes that `save` wrote gives back the chunk's tiles.
pub proof fn lemma_save_load_tiles(x: i32, y: i32, tiles: Seq<u8>, i: int)
    requires
        tiles.len() == 16384,
        0 <= i < 16384,
    ensures
        loaded_tile(x, y, Some(save_spec(x, y, tiles)), i) == tiles[i],
{
}

/// The header of a save file decodes to the chunk's coordinates.
pub proof fn lemma_save_header(x: i32, y: i32, tiles: Seq<u8>)
    ensures
        ({
            let d = save_spec(x, y, tiles);
            be_decode(d[1], d[2], d[3], d[4]) == x && be_decode(d[5], d[6], d[7], d[8]) == y
        }),
{
    lemma_be_roundtrip(x);
    lemma_be_roundtrip(y);
}

} // verus!
