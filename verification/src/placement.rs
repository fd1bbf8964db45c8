//! Placement: from a tree position to a block of the atlas grid, from the
//! block to pixels, and the copy of an image's pixels into the atlas.

use vstd::prelude::*;
use vstd::arithmetic::div_mod::{lemma_fundamental_div_mod, lemma_fundamental_div_mod_converse};
use crate::codec::{
    lemma_position_round_trip, position_level, pow4, relative, relative_position,
};

verus! {

/// `2^n`: the number of blocks along one edge of level `n`.
pub open spec fn two_pow(n: nat) -> nat
    decreases n,
{
    if n == 0 {
        1
    } else {
        2 * two_pow((n - 1) as nat)
    }
}

/// The binary logarithm, rounded down (0 for 0).
pub open spec fn floor_log2(n: nat) -> nat
    decreases n,
{
    if n <= 1 {
        0
    } else {
        1 + floor_log2(n / 2)
    }
}

/// `n` is 1, 2, 4, 8, ...
pub open spec fn is_pow2(n: nat) -> bool
    decreases n,
{
    n == 1 || (n > 1 && n % 2 == 0 && is_pow2(n / 2))
}

/// The level at which an image of edge `size` sits in an atlas of edge
/// `atlas_size`: how many halvings lead from the atlas to the image.
pub open spec fn level_for(size: nat, atlas_size: nat) -> int {
    floor_log2(atlas_size) - floor_log2(size)
}

/// Edge, in pixels, of one block of `level` in an atlas of edge `atlas_size`.
pub open spec fn block_edge(level: nat, atlas_size: nat) -> nat {
    atlas_size / two_pow(level)
}

/// Column of the block that a relative index names: the low bit of each
/// base-4 digit, the lowest digit weighing least.
pub open spec fn block_x(rel: nat) -> nat
    decreases rel,
{
    if rel == 0 {
        0
    } else {
        rel % 2 + 2 * block_x(rel / 4)
    }
}

/// Row of the block that a relative index names: the high bit of each
/// base-4 digit, the lowest digit weighing least.
pub open spec fn block_y(rel: nat) -> nat
    decreases rel,
{
    if rel == 0 {
        0
    } else {
        (rel / 2) % 2 + 2 * block_y(rel / 4)
    }
}

/// Every level has at least one block along an edge.
pub proof fn lemma_two_pow_positive(n: nat)
    ensures
        two_pow(n) >= 1,
    decreases n,
{
    if n > 0 {
        lemma_two_pow_positive((n - 1) as nat);
    }
}

/// `2^(a + b) == 2^a * 2^b`.
pub proof fn lemma_two_pow_adds(a: nat, b: nat)
    ensures
        two_pow(a + b) == two_pow(a) * two_pow(b),
    decreases b,
{
    if b == 0 {
        assert(two_pow(a) * 1 == two_pow(a)) by (nonlinear_arith);
    } else {
        let x = two_pow(a);
        let y = two_pow((b - 1) as nat);
        lemma_two_pow_adds(a, (b - 1) as nat);
        assert(two_pow(a + b) == 2 * two_pow((a + b - 1) as nat));
        assert(2 * (x * y) == x * (2 * y)) by (nonlinear_arith);
    }
}

/// A level has as many nodes as its grid has blocks: `4^n == 2^n * 2^n`.
pub proof fn lemma_pow4_is_square(n: nat)
    ensures
        pow4(n) == two_pow(n) * two_pow(n),
    decreases n,
{
    if n > 0 {
        let x = two_pow((n - 1) as nat);
        lemma_pow4_is_square((n - 1) as nat);
        assert((2 * x) * (2 * x) == 4 * (x * x)) by (nonlinear_arith);
    } else {
        assert(1 * 1 == 1) by (nonlinear_arith);
    }
}

/// A positive number lies between the power of two of its logarithm and the
/// next one.
pub proof fn lemma_floor_log2_bounds(n: nat)
    requires
        n >= 1,
    ensures
        two_pow(floor_log2(n)) <= n < 2 * two_pow(floor_log2(n)),
    decreases n,
{
    if n > 1 {
        lemma_floor_log2_bounds(n / 2);
    }
}

/// A larger number has no smaller logarithm.
pub proof fn lemma_floor_log2_monotone(a: nat, b: nat)
    requires
        a <= b,
    ensures
        floor_log2(a) <= floor_log2(b),
    decreases b,
{
    if a > 1 {
        lemma_floor_log2_monotone(a / 2, b / 2);
    }
}

/// A power of two is the power of two of its logarithm.
pub proof fn lemma_pow2_is_two_pow(n: nat)
    requires
        is_pow2(n),
    ensures
        n == two_pow(floor_log2(n)),
    decreases n,
{
    if n > 1 {
        lemma_pow2_is_two_pow(n / 2);
    }
}

/// An image whose edge is a power of two, in an atlas whose edge is one,
/// is as wide as one block of its level.
pub proof fn lemma_block_size_is_image_size(size: nat, atlas_size: nat)
    requires
        is_pow2(size),
        is_pow2(atlas_size),
        size <= atlas_size,
    ensures
        level_for(size, atlas_size) >= 0,
        size * two_pow(level_for(size, atlas_size) as nat) == atlas_size,
        atlas_size / two_pow(level_for(size, atlas_size) as nat) == size,
{
    lemma_pow2_is_two_pow(size);
    lemma_pow2_is_two_pow(atlas_size);
    lemma_floor_log2_monotone(size, atlas_size);
    let level = level_for(size, atlas_size) as nat;
    lemma_two_pow_adds(floor_log2(size), level);
    lemma_two_pow_positive(level);
    let d = two_pow(level);
    assert((size * d) / d == size) by (nonlinear_arith)
        requires
            d > 0,
    ;
}

/// The block of a relative index of level `level` lies inside that level's
/// grid of `2^level` by `2^level` blocks.
pub proof fn lemma_block_in_grid(rel: nat, level: nat)
    requires
        rel < pow4(level),
    ensures
        block_x(rel) < two_pow(level),
        block_y(rel) < two_pow(level),
    decreases level,
{
    if rel > 0 {
        lemma_block_in_grid(rel / 4, (level - 1) as nat);
    } else {
        lemma_two_pow_positive(level);
    }
}

/// Floor of the binary logarithm of a positive number.
pub fn ilog2(n: usize) -> (log: u32)
    requires
        n >= 1,
    ensures
        log == floor_log2(n as nat),
        two_pow(log as nat) <= n < 2 * two_pow(log as nat),
        log < usize::BITS,
{
    proof {
        lemma_floor_log2_bounds(n as nat);
    }
    let mut rest = n;
    let mut log: u32 = 0;
    proof {
        assert(rest * two_pow(0) == rest) by (nonlinear_arith)
            requires
                two_pow(0) == 1,
        ;
    }
    while rest > 1
        invariant
            rest >= 1,
            log + floor_log2(rest as nat) == floor_log2(n as nat),
            rest * two_pow(log as nat) <= n,
            log < usize::BITS,
        decreases rest,
    {
        proof {
            let p = two_pow(log as nat);
            let half = rest / 2;
            lemma_two_pow_positive(log as nat);
            assert(half * (2 * p) <= rest * p && 2 * p <= half * (2 * p)) by (nonlinear_arith)
                requires
                    half >= 1,
                    2 * half <= rest,
                    p >= 1,
            ;
            lemma_two_pow_bits(log as nat + 1, n as nat);
        }
        rest = rest / 2;
        log += 1;
    }
    log
}

/// A power of two that fits in a machine word has an exponent below the
/// word's width.
pub proof fn lemma_two_pow_bits(e: nat, bound: nat)
    requires
        two_pow(e) <= bound <= usize::MAX,
    ensures
        e < usize::BITS,
{
    if e >= usize::BITS {
        lemma_two_pow_64();
        lemma_two_pow_monotone(32, e);
        lemma_two_pow_monotone(64, if e >= 64 { e } else { 64 });
    }
}

/// A larger exponent gives no smaller power of two.
pub proof fn lemma_two_pow_monotone(a: nat, b: nat)
    requires
        a <= b,
    ensures
        two_pow(a) <= two_pow(b),
    decreases b - a,
{
    if a < b {
        lemma_two_pow_monotone(a, (b - 1) as nat);
    }
}

/// The powers of two at the widths of the machine words.
proof fn lemma_two_pow_64()
    ensures
        two_pow(32) == 0x1_0000_0000,
        two_pow(64) == 0x1_0000_0000_0000_0000,
{
    assert(two_pow(8) == 0x100) by {
        reveal_with_fuel(two_pow, 9);
    }
    assert(two_pow(16) == 0x1_0000) by {
        lemma_two_pow_adds(8, 8);
    }
    assert(two_pow(32) == 0x1_0000_0000) by {
        lemma_two_pow_adds(16, 16);
    }
    assert(two_pow(64) == 0x1_0000_0000_0000_0000) by {
        lemma_two_pow_adds(32, 32);
    }
}

/// Whether `n` is a power of two.
pub fn is_power_of_two(n: usize) -> (yes: bool)
    ensures
        yes == is_pow2(n as nat),
{
    if n == 0 {
        return false;
    }
    let mut rest = n;
    while rest % 2 == 0
        invariant
            rest >= 1,
            is_pow2(rest as nat) == is_pow2(n as nat),
        decreases rest,
    {
        rest = rest / 2;
    }
    rest == 1
}

/// Level of an image of edge `size` in an atlas of edge `atlas_size`, for
/// sizes already known to be powers of two.
pub fn texture_level_unchecked(size: usize, atlas_size: usize) -> (level: u32)
    requires
        1 <= size <= atlas_size,
    ensures
        level == level_for(size as nat, atlas_size as nat),
        level < usize::BITS,
{
    proof {
        lemma_floor_log2_monotone(size as nat, atlas_size as nat);
    }
    ilog2(atlas_size) - ilog2(size)
}

/// Level of an image of edge `size` in an atlas of edge `atlas_size`, or
/// `None` where the image is larger than the atlas or either edge is not a
/// power of two.
pub fn texture_level(size: usize, atlas_size: usize) -> (level: Option<u32>)
    ensures
        level is Some <==> size <= atlas_size && is_pow2(size as nat) && is_pow2(
            atlas_size as nat,
        ),
        level matches Some(l) ==> l == level_for(size as nat, atlas_size as nat) && size
            * two_pow(l as nat) == atlas_size,
{
    if size > atlas_size || !(is_power_of_two(size) && is_power_of_two(atlas_size)) {
        return None;
    }
    proof {
        lemma_block_size_is_image_size(size as nat, atlas_size as nat);
    }
    Some(texture_level_unchecked(size, atlas_size))
}

/// Number of blocks along one edge of `level`.
pub fn level_scale(level: u32) -> (scale: usize)
    requires
        two_pow(level as nat) <= usize::MAX,
    ensures
        scale == two_pow(level as nat),
        scale >= 1,
{
    let mut scale: usize = 1;
    let mut done: u32 = 0;
    while done < level
        invariant
            done <= level,
            scale == two_pow(done as nat),
            scale >= 1,
            two_pow(level as nat) <= usize::MAX,
        decreases level - done,
    {
        proof {
            lemma_two_pow_monotone((done + 1) as nat, level as nat);
        }
        scale = scale * 2;
        done += 1;
    }
    scale
}

/// Block, as column and row, of a relative index.
pub fn relative_position_to_block(rel: usize) -> (block: (usize, usize))
    ensures
        block.0 == block_x(rel as nat),
        block.1 == block_y(rel as nat),
{
    let mut rest = rel;
    let mut k: usize = 1;
    let mut x: usize = 0;
    let mut y: usize = 0;
    proof {
        assert(1 * 1 * rest == rest) by (nonlinear_arith);
        assert(1 * block_x(rest as nat) == block_x(rest as nat)) by (nonlinear_arith);
        assert(1 * block_y(rest as nat) == block_y(rest as nat)) by (nonlinear_arith);
    }
    while rest > 0
        invariant
            k >= 1,
            x < k,
            y < k,
            k * k * rest <= rel,
            x + k * block_x(rest as nat) == block_x(rel as nat),
            y + k * block_y(rest as nat) == block_y(rel as nat),
        decreases rest,
    {
        let x1 = rest & 1;
        let y1 = (rest >> 1) & 1;
        proof {
            assert(rest & 1 == rest % 2) by (bit_vector);
            assert((rest >> 1) & 1 == (rest / 2) % 2) by (bit_vector);
            let bx = block_x((rest / 4) as nat);
            let by = block_y((rest / 4) as nat);
            assert(k * (x1 + 2 * bx) == k * x1 + (k * 2) * bx) by (nonlinear_arith);
            assert(k * (y1 + 2 * by) == k * y1 + (k * 2) * by) by (nonlinear_arith);
            let quarter = rest / 4;
            assert((k * 2) * (k * 2) * quarter <= k * k * rest) by (nonlinear_arith)
                requires
                    k >= 1,
                    4 * quarter <= rest,
                    quarter >= 0,
            ;
            assert(k * 2 <= usize::MAX) by (nonlinear_arith)
                requires
                    k >= 1,
                    rest >= 1,
                    k * k * rest <= usize::MAX,
                    usize::MAX >= 2,
            ;
            assert(k * x1 <= k && k * y1 <= k) by (nonlinear_arith)
                requires
                    x1 <= 1,
                    y1 <= 1,
                    k >= 1,
            ;
        }
        x += k * x1;
        y += k * y1;
        rest /= 4;
        k *= 2;
    }
    proof {
        assert(k * 0 == 0) by (nonlinear_arith);
    }
    (x, y)
}

/// Block, as column and row in its level's grid, of the node at `position`.
pub fn position_to_block(position: usize) -> (block: (usize, usize))
    ensures
        block.0 == block_x(relative(position as nat)),
        block.1 == block_y(relative(position as nat)),
        block.0 < two_pow(position_level(position as nat)),
        block.1 < two_pow(position_level(position as nat)),
{
    proof {
        lemma_position_round_trip(position as nat);
        lemma_block_in_grid(relative(position as nat), position_level(position as nat));
    }
    relative_position_to_block(relative_position(position))
}

/// Pixel offset, from the atlas's top left, of a block of `level`.
pub fn block_to_tx(block: (usize, usize), level: u32, atlas_size: usize) -> (tx: (usize, usize))
    requires
        two_pow(level as nat) <= usize::MAX,
        block.0 * block_edge(level as nat, atlas_size as nat) <= usize::MAX,
        block.1 * block_edge(level as nat, atlas_size as nat) <= usize::MAX,
    ensures
        tx.0 == block.0 * block_edge(level as nat, atlas_size as nat),
        tx.1 == block.1 * block_edge(level as nat, atlas_size as nat),
{
    let scale = level_scale(level);
    let block_size = atlas_size / scale;
    let (x, y) = block;
    (x * block_size, y * block_size)
}

/// A block of a level's grid, scaled to pixels, lies inside the atlas with
/// all of its edge.
pub proof fn lemma_block_inside_atlas(block: nat, level: nat, atlas_size: nat)
    requires
        block < two_pow(level),
    ensures
        block * block_edge(level, atlas_size) + block_edge(level, atlas_size) <= atlas_size,
{
    let d = two_pow(level);
    let s = atlas_size / d;
    assert(block * s + s <= d * s) by (nonlinear_arith)
        requires
            block < d,
            s >= 0,
    ;
    assert(d * (atlas_size / d) <= atlas_size) by (nonlinear_arith)
        requires
            d > 0,
            atlas_size >= 0,
    ;
}

/// An image placed at a node of its level lies inside the atlas: its pixel
/// offset plus its edge does not pass the atlas's edge on either axis.
pub proof fn lemma_placement_contained(position: nat, size: nat, atlas_size: nat)
    requires
        is_pow2(size),
        is_pow2(atlas_size),
        size <= atlas_size,
        position_level(position) == level_for(size, atlas_size),
    ensures
        block_edge(position_level(position), atlas_size) == size,
        block_x(relative(position)) * block_edge(position_level(position), atlas_size) + size
            <= atlas_size,
        block_y(relative(position)) * block_edge(position_level(position), atlas_size) + size
            <= atlas_size,
{
    let level = position_level(position);
    lemma_block_size_is_image_size(size, atlas_size);
    lemma_position_round_trip(position);
    lemma_block_in_grid(relative(position), level);
    lemma_block_inside_atlas(block_x(relative(position)), level, atlas_size);
    lemma_block_inside_atlas(block_y(relative(position)), level, atlas_size);
}

/// Row, counted from the start of the buffer, of the pixel that byte `idx`
/// of an interleaved, row-major buffer belongs to.
pub open spec fn pixel_row(idx: int, atlas_size: nat, channels: nat) -> int {
    (idx / channels as int) / atlas_size as int
}

/// Column of the pixel that byte `idx` belongs to.
pub open spec fn pixel_col(idx: int, atlas_size: nat, channels: nat) -> int {
    (idx / channels as int) % atlas_size as int
}

/// Index of the byte that holds channel `k` of the pixel in `row`, `col`.
pub open spec fn byte_index(row: nat, col: nat, k: nat, atlas_size: nat, channels: nat) -> int {
    (channels * (row * atlas_size + col) + k) as int
}

/// Channel that byte `idx` holds.
pub open spec fn pixel_channel(idx: int, channels: nat) -> int {
    idx % (channels as int)
}

/// First buffer row of an image placed `y` pixels from the top: the buffer
/// counts rows from the opposite edge, so the image ends `y` rows before the
/// buffer's last.
pub open spec fn first_row(atlas_size: nat, texture_size: nat, y: nat) -> int {
    atlas_size - y - texture_size
}

/// Byte `idx` of the atlas lies in the square that the image is copied to.
pub open spec fn in_placed_area(
    idx: int,
    atlas_size: nat,
    texture_size: nat,
    x: nat,
    y: nat,
    channels: nat,
) -> bool {
    let row = pixel_row(idx, atlas_size, channels);
    let col = pixel_col(idx, atlas_size, channels);
    let top = first_row(atlas_size, texture_size, y);
    &&& channels > 0
    &&& atlas_size > 0
    &&& top <= row < top + texture_size
    &&& x <= col < x + texture_size
}

/// The byte of the image that lands on byte `idx` of the atlas: same
/// channel, row and column counted from the square's first row and column.
pub open spec fn source_index(
    idx: int,
    atlas_size: nat,
    texture_size: nat,
    x: nat,
    y: nat,
    channels: nat,
) -> int {
    let row = pixel_row(idx, atlas_size, channels) - first_row(atlas_size, texture_size, y);
    let col = pixel_col(idx, atlas_size, channels) - x;
    channels * (row * texture_size + col) + pixel_channel(idx, channels)
}

/// The atlas after the image is copied in: the image's bytes inside the
/// square, the atlas's own everywhere else.
pub open spec fn placed(
    atlas: Seq<u8>,
    atlas_size: nat,
    texture: Seq<u8>,
    texture_size: nat,
    x: nat,
    y: nat,
    channels: nat,
) -> Seq<u8> {
    Seq::new(
        atlas.len(),
        |idx: int|
            if in_placed_area(idx, atlas_size, texture_size, x, y, channels) {
                texture[source_index(idx, atlas_size, texture_size, x, y, channels)]
            } else {
                atlas[idx]
            },
    )
}

/// Byte `idx` lies in the square and comes, row by row, pixel by pixel,
/// channel by channel, before channel `k` of the pixel in row `i`, column
/// `j` of the image.
pub open spec fn copied_before(
    idx: int,
    atlas_size: nat,
    texture_size: nat,
    x: nat,
    y: nat,
    channels: nat,
    i: int,
    j: int,
    k: int,
) -> bool {
    let r = pixel_row(idx, atlas_size, channels) - first_row(atlas_size, texture_size, y);
    let c = pixel_col(idx, atlas_size, channels) - x;
    let ch = pixel_channel(idx, channels);
    &&& in_placed_area(idx, atlas_size, texture_size, x, y, channels)
    &&& (r < i || (r == i && (c < j || (c == j && ch < k))))
}

/// Where channel `k` of the pixel in buffer row `row`, column `col` lies.
pub proof fn lemma_byte_of_pixel(row: nat, col: nat, k: nat, atlas_size: nat, channels: nat)
    requires
        col < atlas_size,
        k < channels,
    ensures
        pixel_row(byte_index(row, col, k, atlas_size, channels), atlas_size, channels) == row,
        pixel_col(byte_index(row, col, k, atlas_size, channels), atlas_size, channels) == col,
        pixel_channel(byte_index(row, col, k, atlas_size, channels), channels) == k,
        row < atlas_size ==> channels * (row * atlas_size + col) + k < channels * atlas_size
            * atlas_size,
{
    let pixel = (row * atlas_size + col) as int;
    let idx = channels * pixel + k;
    assert(pixel == atlas_size * row + col) by (nonlinear_arith)
        requires
            pixel == row * atlas_size + col,
    ;
    lemma_fundamental_div_mod_converse(idx, channels as int, pixel, k as int);
    lemma_fundamental_div_mod_converse(pixel, atlas_size as int, row as int, col as int);
    if row < atlas_size {
        assert(channels * (row * atlas_size + col) + k < channels * atlas_size * atlas_size)
            by (nonlinear_arith)
            requires
                row < atlas_size,
                col < atlas_size,
                k < channels,
        ;
    }
}

/// A byte is found again from its pixel's row and column and its channel.
pub proof fn lemma_pixel_of_byte(idx: int, atlas_size: nat, channels: nat)
    requires
        idx >= 0,
        atlas_size > 0,
        channels > 0,
    ensures
        idx == channels * (pixel_row(idx, atlas_size, channels) * atlas_size + pixel_col(
            idx,
            atlas_size,
            channels,
        )) + pixel_channel(idx, channels),
        0 <= pixel_channel(idx, channels) < channels,
        0 <= pixel_col(idx, atlas_size, channels) < atlas_size,
{
    let pixel = idx / channels as int;
    lemma_fundamental_div_mod(idx, channels as int);
    lemma_fundamental_div_mod(pixel, atlas_size as int);
    let row = pixel / atlas_size as int;
    let col = pixel % atlas_size as int;
    assert(atlas_size * row == row * atlas_size) by (nonlinear_arith);
}

/// Copies a square image into the atlas at `texture_position`, given from
/// the atlas's top left; the atlas's rows are stored bottom row first.
pub fn place_texture(
    atlas: &mut [u8],
    atlas_size: usize,
    texture: &[u8],
    texture_size: usize,
    texture_position: (usize, usize),
    channels: usize,
)
    requires
        texture_position.0 + texture_size <= atlas_size,
        texture_position.1 + texture_size <= atlas_size,
        channels * atlas_size * atlas_size <= old(atlas)@.len(),
        channels * texture_size * texture_size <= texture@.len(),
    ensures
        final(atlas)@ == placed(
            old(atlas)@,
            atlas_size as nat,
            texture@,
            texture_size as nat,
            texture_position.0 as nat,
            texture_position.1 as nat,
            channels as nat,
        ),
{
    let (x, y) = texture_position;
    let (nx, ny) = (x, atlas_size - y - texture_size);
    let len = atlas.len();
    let texture_len = texture.len();
    let ghost before = atlas@;
    let ghost asz = atlas_size as nat;
    let ghost ts = texture_size as nat;
    let ghost ch = channels as nat;
    let mut i: usize = 0;
    while i < texture_size
        invariant
            i <= texture_size,
            nx == x,
            ny == first_row(asz, ts, y as nat),
            asz == atlas_size,
            ts == texture_size,
            ch == channels,
            x + texture_size <= atlas_size,
            y + texture_size <= atlas_size,
            channels * atlas_size * atlas_size <= before.len(),
            before.len() == len,
            texture@.len() == texture_len,
            channels * texture_size * texture_size <= texture@.len(),
            atlas@.len() == before.len(),
            forall|idx: int|
                0 <= idx < before.len() ==> #[trigger] atlas@[idx] == (if copied_before(
                    idx,
                    asz,
                    ts,
                    x as nat,
                    y as nat,
                    ch,
                    i as int,
                    0,
                    0,
                ) {
                    texture@[source_index(idx, asz, ts, x as nat, y as nat, ch)]
                } else {
                    before[idx]
                }),
        decreases texture_size - i,
    {
        let row = ny + i;
        let mut j: usize = 0;
        while j < texture_size
            invariant
                i < texture_size,
                j <= texture_size,
                row == ny + i,
                nx == x,
                ny == first_row(asz, ts, y as nat),
                asz == atlas_size,
                ts == texture_size,
                ch == channels,
                x + texture_size <= atlas_size,
                y + texture_size <= atlas_size,
                channels * atlas_size * atlas_size <= before.len(),
                before.len() == len,
                texture@.len() == texture_len,
            texture@.len() == texture_len,
            before.len() == len,
            texture@.len() == texture_len,
                channels * texture_size * texture_size <= texture@.len(),
                atlas@.len() == before.len(),
                forall|idx: int|
                    0 <= idx < before.len() ==> #[trigger] atlas@[idx] == (if copied_before(
                        idx,
                        asz,
                        ts,
                        x as nat,
                        y as nat,
                        ch,
                        i as int,
                        j as int,
                        0,
                    ) {
                        texture@[source_index(idx, asz, ts, x as nat, y as nat, ch)]
                    } else {
                        before[idx]
                    }),
            decreases texture_size - j,
        {
            let col = nx + j;
            let mut k: usize = 0;
            while k < channels
                invariant
                    i < texture_size,
                    j < texture_size,
                    k <= channels,
                    row == ny + i,
                    col == nx + j,
                    nx == x,
                    ny == first_row(asz, ts, y as nat),
                    asz == atlas_size,
                    ts == texture_size,
                    ch == channels,
                    x + texture_size <= atlas_size,
                    y + texture_size <= atlas_size,
                    channels * atlas_size * atlas_size <= before.len(),
                    before.len() == len,
                    texture@.len() == texture_len,
                texture@.len() == texture_len,
            texture@.len() == texture_len,
                before.len() == len,
                texture@.len() == texture_len,
            texture@.len() == texture_len,
            before.len() == len,
            texture@.len() == texture_len,
                    channels * texture_size * texture_size <= texture@.len(),
                    atlas@.len() == before.len(),
                    forall|idx: int|
                        0 <= idx < before.len() ==> #[trigger] atlas@[idx] == (if copied_before(
                            idx,
                            asz,
                            ts,
                            x as nat,
                            y as nat,
                            ch,
                            i as int,
                            j as int,
                            k as int,
                        ) {
                            texture@[source_index(idx, asz, ts, x as nat, y as nat, ch)]
                        } else {
                            before[idx]
                        }),
                decreases channels - k,
            {
                proof {
                    lemma_byte_of_pixel(row as nat, col as nat, k as nat, asz, ch);
                    lemma_byte_of_pixel(i as nat, j as nat, k as nat, ts, ch);
                    assert(row * atlas_size + col <= channels * (row * atlas_size + col))
                        by (nonlinear_arith)
                        requires
                            channels >= 1,
                    ;
                    assert(i * texture_size + j <= channels * (i * texture_size + j))
                        by (nonlinear_arith)
                        requires
                            channels >= 1,
                    ;
                    assert(byte_index(row as nat, col as nat, k as nat, asz, ch) == channels * (
                    row * atlas_size + col) + k);
                    assert(byte_index(i as nat, j as nat, k as nat, ts, ch) == channels * (i
                        * texture_size + j) + k);
                    assert(channels * texture_size * texture_size <= texture@.len());
                }
                let target = channels * (row * atlas_size + col) + k;
                let source = channels * (i * texture_size + j) + k;
                let ghost entering = atlas@;
                atlas[target] = texture[source];
                proof {
                    assert forall|idx: int| 0 <= idx < before.len() implies #[trigger] atlas@[idx]
                        == (if copied_before(
                        idx,
                        asz,
                        ts,
                        x as nat,
                        y as nat,
                        ch,
                        i as int,
                        j as int,
                        k + 1,
                    ) {
                        texture@[source_index(idx, asz, ts, x as nat, y as nat, ch)]
                    } else {
                        before[idx]
                    }) by {
                        lemma_pixel_of_byte(idx, asz, ch);
                        assert(entering[idx] == (if copied_before(
                            idx,
                            asz,
                            ts,
                            x as nat,
                            y as nat,
                            ch,
                            i as int,
                            j as int,
                            k as int,
                        ) {
                            texture@[source_index(idx, asz, ts, x as nat, y as nat, ch)]
                        } else {
                            before[idx]
                        }));
                        if idx == target {
                            assert(source_index(idx, asz, ts, x as nat, y as nat, ch) == source);
                        }
                    }
                }
                k += 1;
            }
            proof {
                assert forall|idx: int| 0 <= idx < before.len() implies copied_before(
                    idx,
                    asz,
                    ts,
                    x as nat,
                    y as nat,
                    ch,
                    i as int,
                    j as int,
                    k as int,
                ) == copied_before(idx, asz, ts, x as nat, y as nat, ch, i as int, j + 1, 0) by {
                    if asz > 0 && ch > 0 {
                        lemma_pixel_of_byte(idx, asz, ch);
                    }
                }
            }
            j += 1;
        }
        i += 1;
    }
    proof {
        assert(atlas@ =~= placed(before, asz, texture@, ts, x as nat, y as nat, ch));
    }
}

} // verus!
