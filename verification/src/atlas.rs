//! Packing driver: places a list of square images, in the order given, into
//! one atlas, and reports where each one went.

use vstd::prelude::*;
use image::DynamicImage;
use crate::codec::{
    checked_full_level_space, full_level_space, level_offset, position_level, pow4,
};
use crate::occupancy::{
    empty_index, family_occupied, first_free, first_free_position, in_family,
    lemma_first_free_level, marked, occupy, unrelated,
};
use crate::overlap::{
    lemma_unrelated_squares_are_disjoint, pixel_edge, pixel_x, pixel_y, squares_disjoint,
};
use crate::placement::{
    block_to_tx, floor_log2, is_pow2, is_power_of_two, lemma_block_inside_atlas,
    lemma_block_size_is_image_size, lemma_floor_log2_monotone,
    lemma_placement_contained, lemma_pow2_is_two_pow, lemma_pow4_is_square,
    lemma_two_pow_monotone, lemma_two_pow_positive, level_for, place_texture, placed,
    position_to_block, texture_level_unchecked, two_pow,
};

verus! {

/// `image::DynamicImage`: a decoded image, of any of the crate's pixel
/// formats. Nothing is known of a value but what the functions below say.
#[verifier::external_type_specification]
#[verifier::external_body]
pub struct ExDynamicImage(image::DynamicImage);

/// Width, in pixels, of a decoded image.
pub uninterp spec fn image_width(image: DynamicImage) -> nat;

/// Height, in pixels, of a decoded image.
pub uninterp spec fn image_height(image: DynamicImage) -> nat;

/// The samples of an image converted to 8-bit RGB: three bytes a pixel, rows
/// from the top, pixels from the left.
pub uninterp spec fn image_rgb(image: DynamicImage) -> Seq<u8>;

/// The samples of an image converted to 8-bit RGBA: four bytes a pixel, rows
/// from the top, pixels from the left.
pub uninterp spec fn image_rgba(image: DynamicImage) -> Seq<u8>;

/// `image::DynamicImage::width`, widened to `usize`.
#[verifier::external_body]
fn texture_width(texture: &DynamicImage) -> (width: usize)
    ensures
        width == image_width(*texture),
{
    texture.width() as usize
}

/// `image::DynamicImage::height`, widened to `usize`.
#[verifier::external_body]
fn texture_height(texture: &DynamicImage) -> (height: usize)
    ensures
        height == image_height(*texture),
{
    texture.height() as usize
}

/// `image::DynamicImage::into_rgb8` on a copy of the image, then
/// `ImageBuffer::into_flat_samples`: the buffer of the converted image. The
/// crate keeps every image buffer at least as long as its width, height and
/// channel count ask for.
#[verifier::external_body]
fn texture_rgb(texture: &DynamicImage) -> (samples: Vec<u8>)
    ensures
        samples@ == image_rgb(*texture),
        samples@.len() >= 3 * image_width(*texture) * image_height(*texture),
{
    texture.clone().into_rgb8().into_flat_samples().samples
}

/// `image::DynamicImage::into_rgba8` on a copy of the image, then
/// `ImageBuffer::into_flat_samples`: the buffer of the converted image. The
/// crate keeps every image buffer at least as long as its width, height and
/// channel count ask for.
#[verifier::external_body]
fn texture_rgba(texture: &DynamicImage) -> (samples: Vec<u8>)
    ensures
        samples@ == image_rgba(*texture),
        samples@.len() >= 4 * image_width(*texture) * image_height(*texture),
{
    texture.clone().into_rgba8().into_flat_samples().samples
}

/// The image is square and its edge is a power of two.
pub open spec fn fits_tree(image: DynamicImage) -> bool {
    image_width(image) == image_height(image) && is_pow2(image_width(image))
}

/// Whether the image is square with a power of two for its edge.
pub fn is_square_power_of_two(texture: &DynamicImage) -> (yes: bool)
    ensures
        yes == fits_tree(*texture),
{
    let width = texture_width(texture);
    let height = texture_height(texture);
    width == height && is_power_of_two(width)
}

/// Whether every image of the list is square with a power of two for its edge.
pub fn all_square_power_of_two(textures: &[DynamicImage]) -> (yes: bool)
    ensures
        yes == forall|i: int| 0 <= i < textures@.len() ==> fits_tree(#[trigger] textures@[i]),
{
    let mut i: usize = 0;
    while i < textures.len()
        invariant
            i <= textures@.len(),
            forall|t: int| 0 <= t < i ==> fits_tree(#[trigger] textures@[t]),
        decreases textures@.len() - i,
    {
        if !is_square_power_of_two(&textures[i]) {
            return false;
        }
        i += 1;
    }
    true
}

/// A finished atlas: its pixels, its edge, and for each input image the tree
/// position it was given (0 for an image that was not placed).
#[derive(Debug)]
pub struct Atlas {
    pub texture: Vec<u8>,
    pub size: usize,
    pub map: Vec<usize>,
}

/// A packing run between two images: the occupancy index, the atlas's
/// pixels, the position of each image placed so far, and the indices of the
/// images that were left out.
pub ghost struct Packing {
    pub occupied: Seq<bool>,
    pub texture: Seq<u8>,
    pub map: Seq<usize>,
    pub skipped: Seq<usize>,
}

/// Bytes per pixel of the atlas: four with alpha, three without.
pub open spec fn channel_count(alpha: bool) -> nat {
    if alpha {
        4
    } else {
        3
    }
}

/// The edges of the images, in order.
pub open spec fn sizes_of(textures: Seq<DynamicImage>) -> Seq<nat> {
    Seq::new(textures.len(), |i: int| image_width(textures[i]))
}

/// The samples of the images, converted to the atlas's channels, in order.
pub open spec fn samples_of(textures: Seq<DynamicImage>, alpha: bool) -> Seq<Seq<u8>> {
    Seq::new(
        textures.len(),
        |i: int|
            if alpha {
                image_rgba(textures[i])
            } else {
                image_rgb(textures[i])
            },
    )
}

/// The run before the first image: nothing occupied, every pixel zero, every
/// map entry zero, nothing left out.
pub open spec fn empty_packing(count: nat, atlas_size: nat, channels: nat, max_level: nat)
    -> Packing {
    Packing {
        occupied: empty_index(level_offset(max_level + 1)),
        texture: Seq::new(channels * atlas_size * atlas_size, |i: int| 0u8),
        map: Seq::new(count, |i: int| 0usize),
        skipped: Seq::empty(),
    }
}

/// The node given to an image of edge `size`: none where the image is larger
/// than the atlas, else the first free node of the image's level, if any.
pub open spec fn allotted(occupied: Seq<bool>, size: nat, atlas_size: nat, max_level: nat)
    -> Option<nat> {
    if size > atlas_size {
        None
    } else {
        first_free(occupied, level_for(size, atlas_size) as nat, max_level)
    }
}

/// Pixel offset, from the atlas's top left, of the block of `position`.
pub open spec fn offset_of(position: nat, atlas_size: nat) -> (nat, nat) {
    (pixel_x(position, atlas_size), pixel_y(position, atlas_size))
}

/// The run after one more image: left out where no node is given to it; else
/// placed at the node given, whose family becomes occupied.
pub open spec fn pack_one(
    state: Packing,
    index: nat,
    size: nat,
    samples: Seq<u8>,
    atlas_size: nat,
    channels: nat,
    max_level: nat,
) -> Packing {
    match allotted(state.occupied, size, atlas_size, max_level) {
        None => Packing { skipped: state.skipped.push(index as usize), ..state },
        Some(position) => Packing {
            occupied: marked(state.occupied, position, max_level),
            texture: placed(
                state.texture,
                atlas_size,
                samples,
                size,
                offset_of(position, atlas_size).0,
                offset_of(position, atlas_size).1,
                channels,
            ),
            map: state.map.update(index as int, position as usize),
            skipped: state.skipped,
        },
    }
}

/// The run after the first `n` images.
pub open spec fn packed(
    sizes: Seq<nat>,
    samples: Seq<Seq<u8>>,
    n: nat,
    atlas_size: nat,
    channels: nat,
    max_level: nat,
) -> Packing
    decreases n,
{
    if n == 0 {
        empty_packing(sizes.len(), atlas_size, channels, max_level)
    } else {
        pack_one(
            packed(sizes, samples, (n - 1) as nat, atlas_size, channels, max_level),
            (n - 1) as nat,
            sizes[n - 1],
            samples[n - 1],
            atlas_size,
            channels,
            max_level,
        )
    }
}

/// The atlas and the list of left-out images are what the run ended with.
pub open spec fn is_packing(atlas: Atlas, skipped: Option<Vec<usize>>, atlas_size: nat, run: Packing)
    -> bool {
    &&& atlas.size == atlas_size
    &&& atlas.texture@ == run.texture
    &&& atlas.map@ == run.map
    &&& match skipped {
        None => run.skipped.len() == 0,
        Some(list) => list@ == run.skipped && list@.len() > 0,
    }
}

/// What packing asks of its input: an atlas whose edge is a power of two and
/// whose buffer and index fit in memory, and square images with powers of
/// two for edges.
pub open spec fn can_pack(
    textures: Seq<DynamicImage>,
    atlas_size: nat,
    alpha: bool,
    max_level: nat,
) -> bool {
    &&& is_pow2(atlas_size)
    &&& channel_count(alpha) * atlas_size * atlas_size <= usize::MAX
    &&& level_offset(max_level + 1) <= usize::MAX
    &&& forall|i: int| 0 <= i < textures.len() ==> fits_tree(#[trigger] textures[i])
}

/// Which images are placed, and where, does not depend on their pixels.
pub proof fn lemma_positions_ignore_pixels(
    sizes: Seq<nat>,
    samples: Seq<Seq<u8>>,
    other_samples: Seq<Seq<u8>>,
    n: nat,
    atlas_size: nat,
    channels: nat,
    other_channels: nat,
    max_level: nat,
)
    ensures
        packed(sizes, samples, n, atlas_size, channels, max_level).occupied == packed(
            sizes,
            other_samples,
            n,
            atlas_size,
            other_channels,
            max_level,
        ).occupied,
        packed(sizes, samples, n, atlas_size, channels, max_level).map == packed(
            sizes,
            other_samples,
            n,
            atlas_size,
            other_channels,
            max_level,
        ).map,
        packed(sizes, samples, n, atlas_size, channels, max_level).skipped == packed(
            sizes,
            other_samples,
            n,
            atlas_size,
            other_channels,
            max_level,
        ).skipped,
    decreases n,
{
    if n > 0 {
        lemma_positions_ignore_pixels(
            sizes,
            samples,
            other_samples,
            (n - 1) as nat,
            atlas_size,
            channels,
            other_channels,
            max_level,
        );
    }
}

/// Two packings of the same images, in the same order, with the same
/// parameters, give the same map and leave out the same images.
pub proof fn lemma_packing_deterministic(
    first: (Atlas, Option<Vec<usize>>),
    second: (Atlas, Option<Vec<usize>>),
    textures: Seq<DynamicImage>,
    atlas_size: nat,
    alpha: bool,
    max_level: nat,
)
    requires
        is_packing(
            first.0,
            first.1,
            atlas_size,
            packed(
                sizes_of(textures),
                samples_of(textures, alpha),
                textures.len(),
                atlas_size,
                channel_count(alpha),
                max_level,
            ),
        ),
        is_packing(
            second.0,
            second.1,
            atlas_size,
            packed(
                sizes_of(textures),
                samples_of(textures, alpha),
                textures.len(),
                atlas_size,
                channel_count(alpha),
                max_level,
            ),
        ),
    ensures
        first.0.map@ == second.0.map@,
        first.0.texture@ == second.0.texture@,
        first.1 is Some <==> second.1 is Some,
        first.1 is Some ==> first.1->Some_0@ == second.1->Some_0@,
{
}

/// A run keeps the sizes of the index, of the pixel buffer and of the map.
pub proof fn lemma_packed_lengths(
    sizes: Seq<nat>,
    samples: Seq<Seq<u8>>,
    n: nat,
    atlas_size: nat,
    channels: nat,
    max_level: nat,
)
    requires
        n <= sizes.len(),
    ensures
        packed(sizes, samples, n, atlas_size, channels, max_level).occupied.len() == level_offset(
            max_level + 1,
        ),
        packed(sizes, samples, n, atlas_size, channels, max_level).texture.len() == channels
            * atlas_size * atlas_size,
        packed(sizes, samples, n, atlas_size, channels, max_level).map.len() == sizes.len(),
    decreases n,
{
    if n > 0 {
        lemma_packed_lengths(sizes, samples, (n - 1) as nat, atlas_size, channels, max_level);
    }
}

/// An image that is given a node lies inside the atlas: the pixel offset of
/// the node, plus the image's edge, does not pass the atlas's edge on either
/// axis; and the node's block is exactly as wide as the image.
pub proof fn lemma_placed_image_inside_atlas(
    occupied: Seq<bool>,
    size: nat,
    atlas_size: nat,
    max_level: nat,
)
    requires
        is_pow2(size),
        is_pow2(atlas_size),
        occupied.len() == level_offset(max_level + 1),
        allotted(occupied, size, atlas_size, max_level) is Some,
    ensures
        ({
            let position = allotted(occupied, size, atlas_size, max_level)->Some_0;
            &&& pixel_edge(position, atlas_size) == size
            &&& offset_of(position, atlas_size).0 + size <= atlas_size
            &&& offset_of(position, atlas_size).1 + size <= atlas_size
        }),
{
    lemma_block_size_is_image_size(size, atlas_size);
    let level = level_for(size, atlas_size) as nat;
    lemma_first_free_level(occupied, level, max_level);
    lemma_placement_contained(first_free(occupied, level, max_level)->Some_0, size, atlas_size);
}

/// Image `index` was given a position by the run.
pub open spec fn was_placed(run: Packing, index: int) -> bool {
    !run.skipped.contains(index as usize)
}

/// What holds of a run after its first `n` images: the left-out indices are
/// among the first `n`; every placed image is no larger than the atlas and
/// has a position in the index, at the level of its size and no deeper than
/// `max_level`, whose whole family is occupied; and no two placed images
/// have related positions.
pub open spec fn run_is_sound(
    run: Packing,
    sizes: Seq<nat>,
    n: nat,
    atlas_size: nat,
    max_level: nat,
) -> bool {
    &&& forall|k: int| 0 <= k < run.skipped.len() ==> #[trigger] run.skipped[k] < n
    &&& forall|i: int|
        0 <= i < n && was_placed(run, i) ==> {
            &&& #[trigger] run.map[i] < run.occupied.len()
            &&& sizes[i] <= atlas_size
            &&& position_level(run.map[i] as nat) == level_for(sizes[i], atlas_size)
            &&& position_level(run.map[i] as nat) <= max_level
            &&& family_occupied(run.occupied, run.map[i] as nat, max_level)
        }
    &&& forall|i: int, j: int|
        0 <= i < j < n && was_placed(run, i) && was_placed(run, j) ==> unrelated(
            #[trigger] run.map[i] as nat,
            #[trigger] run.map[j] as nat,
        )
}

/// No two images that a run places share a node of the tree, or any node
/// above or below one: each placed image has a block of the atlas to itself.
pub proof fn lemma_placed_images_are_unrelated(
    sizes: Seq<nat>,
    samples: Seq<Seq<u8>>,
    n: nat,
    atlas_size: nat,
    channels: nat,
    max_level: nat,
)
    requires
        n <= sizes.len() <= usize::MAX,
        level_offset(max_level + 1) <= usize::MAX,
    ensures
        run_is_sound(
            packed(sizes, samples, n, atlas_size, channels, max_level),
            sizes,
            n,
            atlas_size,
            max_level,
        ),
    decreases n,
{
    if n > 0 {
        let index = (n - 1) as nat;
        let before = packed(sizes, samples, index, atlas_size, channels, max_level);
        let after = packed(sizes, samples, n, atlas_size, channels, max_level);
        lemma_placed_images_are_unrelated(sizes, samples, index, atlas_size, channels, max_level);
        lemma_packed_lengths(sizes, samples, index, atlas_size, channels, max_level);
        let level = level_for(sizes[index as int], atlas_size) as nat;
        let found = first_free(before.occupied, level, max_level);
        if sizes[index as int] > atlas_size || found is None {
            assert(after.skipped == before.skipped.push(index as usize));
            assert(after.skipped.last() == index as usize);
            assert forall|i: int| 0 <= i < n implies was_placed(after, i) == (i < index
                && was_placed(before, i)) by {
                if before.skipped.contains(i as usize) {
                    let k = choose|k: int|
                        0 <= k < before.skipped.len() && before.skipped[k] == i as usize;
                    assert(after.skipped[k] == i as usize);
                }
                if after.skipped.contains(i as usize) && i < index {
                    let k = choose|k: int|
                        0 <= k < after.skipped.len() && after.skipped[k] == i as usize;
                    assert(before.skipped[k] == i as usize);
                }
                if i == index {
                    assert(after.skipped[after.skipped.len() - 1] == i as usize);
                }
            }
            assert forall|k: int| 0 <= k < after.skipped.len() implies #[trigger] after.skipped[k]
                < n by {
                if k < before.skipped.len() {
                    assert(after.skipped[k] == before.skipped[k]);
                }
            }
            assert(run_is_sound(after, sizes, n, atlas_size, max_level));
        } else {
            let position = found->Some_0;
            lemma_first_free_level(before.occupied, level, max_level);
            lemma_floor_log2_monotone(sizes[index as int], atlas_size);
            assert(after.skipped == before.skipped);
            assert(after.occupied == marked(before.occupied, position, max_level));
            assert(after.map == before.map.update(index as int, position as usize));
            assert(!before.skipped.contains(index as usize)) by {
                if before.skipped.contains(index as usize) {
                    let k = choose|k: int|
                        0 <= k < before.skipped.len() && before.skipped[k] == index as usize;
                    assert(before.skipped[k] < index);
                }
            }
            assert forall|i: int| 0 <= i < n && was_placed(after, i) implies {
                &&& #[trigger] after.map[i] < after.occupied.len()
                &&& sizes[i] <= atlas_size
                &&& position_level(after.map[i] as nat) == level_for(sizes[i], atlas_size)
                &&& position_level(after.map[i] as nat) <= max_level
                &&& family_occupied(after.occupied, after.map[i] as nat, max_level)
            } by {
                if i < index {
                    assert(was_placed(before, i));
                    assert(after.map[i] == before.map[i]);
                    assert(family_occupied(before.occupied, before.map[i] as nat, max_level));
                }
            }
            assert forall|i: int, j: int|
                0 <= i < j < n && was_placed(after, i) && was_placed(after, j) implies unrelated(
                #[trigger] after.map[i] as nat,
                #[trigger] after.map[j] as nat,
            ) by {
                assert(was_placed(before, i));
                assert(after.map[i] == before.map[i]);
                if j < index {
                    assert(was_placed(before, j));
                    assert(after.map[j] == before.map[j]);
                } else {
                    assert(after.map[j] == position);
                    assert(family_occupied(before.occupied, before.map[i] as nat, max_level));
                    assert(!before.occupied[position as int]);
                    assert(!in_family(before.map[i] as nat, position, max_level));
                }
            }
            assert(run_is_sound(after, sizes, n, atlas_size, max_level));
        }
    } else {
        let start = packed(sizes, samples, 0, atlas_size, channels, max_level);
        assert(start.skipped.len() == 0);
        assert(run_is_sound(start, sizes, 0, atlas_size, max_level));
    }
}

/// No two images that a run places share a pixel of the atlas: their blocks
/// are squares with nothing in common, and an image whose edge is a power of
/// two is exactly as wide as its block.
pub proof fn lemma_placed_images_do_not_overlap(
    sizes: Seq<nat>,
    samples: Seq<Seq<u8>>,
    n: nat,
    atlas_size: nat,
    channels: nat,
    max_level: nat,
)
    requires
        n <= sizes.len() <= usize::MAX,
        level_offset(max_level + 1) <= usize::MAX,
        is_pow2(atlas_size),
    ensures
        forall|i: int, j: int|
            0 <= i < j < n && was_placed(
                packed(sizes, samples, n, atlas_size, channels, max_level),
                i,
            ) && was_placed(packed(sizes, samples, n, atlas_size, channels, max_level), j)
                ==> squares_disjoint(
                #[trigger] packed(sizes, samples, n, atlas_size, channels, max_level).map[i] as nat,
                #[trigger] packed(sizes, samples, n, atlas_size, channels, max_level).map[j] as nat,
                atlas_size,
            ),
        forall|i: int|
            0 <= i < n && was_placed(
                packed(sizes, samples, n, atlas_size, channels, max_level),
                i,
            ) && is_pow2(sizes[i]) ==> pixel_edge(
                #[trigger] packed(sizes, samples, n, atlas_size, channels, max_level).map[i] as nat,
                atlas_size,
            ) == sizes[i],
{
    let run = packed(sizes, samples, n, atlas_size, channels, max_level);
    lemma_placed_images_are_unrelated(sizes, samples, n, atlas_size, channels, max_level);
    lemma_pow2_is_two_pow(atlas_size);
    assert forall|i: int| 0 <= i < n && was_placed(run, i) implies two_pow(
        position_level(#[trigger] run.map[i] as nat),
    ) <= atlas_size by {
        assert(run.map[i] < run.occupied.len());
        lemma_two_pow_monotone(position_level(run.map[i] as nat), floor_log2(atlas_size));
    }
    assert forall|i: int, j: int|
        0 <= i < j < n && was_placed(run, i) && was_placed(run, j) implies squares_disjoint(
        #[trigger] run.map[i] as nat,
        #[trigger] run.map[j] as nat,
        atlas_size,
    ) by {
        assert(unrelated(run.map[i] as nat, run.map[j] as nat));
        lemma_unrelated_squares_are_disjoint(run.map[i] as nat, run.map[j] as nat, atlas_size);
    }
    assert forall|i: int| 0 <= i < n && was_placed(run, i) && is_pow2(sizes[i]) implies pixel_edge(
        #[trigger] run.map[i] as nat,
        atlas_size,
    ) == sizes[i] by {
        assert(run.map[i] < run.occupied.len());
        lemma_block_size_is_image_size(sizes[i], atlas_size);
    }
}

/// Finds a node for image `index`, of edge `size`, and takes it: the node's
/// family becomes occupied and the map records the node. Where the image is
/// larger than the atlas, or its level has no free node, the image is
/// recorded as left out instead. Returns the pixel offset, from the atlas's
/// top left, at which a placed image belongs.
pub fn allocate_texture(
    index: usize,
    size: usize,
    atlas_size: usize,
    max_level: u32,
    occupied: &mut Vec<bool>,
    map: &mut Vec<usize>,
    skipped: &mut Vec<usize>,
) -> (offset: Option<(usize, usize)>)
    requires
        is_pow2(atlas_size as nat),
        atlas_size * atlas_size <= usize::MAX,
        size <= atlas_size ==> is_pow2(size as nat),
        level_offset(max_level as nat + 1) <= usize::MAX,
        old(occupied)@.len() == level_offset(max_level as nat + 1),
        index < old(map)@.len(),
    ensures
        match allotted(old(occupied)@, size as nat, atlas_size as nat, max_level as nat) {
            None => {
                &&& offset is None
                &&& final(occupied)@ == old(occupied)@
                &&& final(map)@ == old(map)@
                &&& final(skipped)@ == old(skipped)@.push(index)
            },
            Some(position) => {
                &&& offset == Some(
                    (
                        offset_of(position, atlas_size as nat).0 as usize,
                        offset_of(position, atlas_size as nat).1 as usize,
                    ),
                )
                &&& offset_of(position, atlas_size as nat).0 + size <= atlas_size
                &&& offset_of(position, atlas_size as nat).1 + size <= atlas_size
                &&& final(occupied)@ == marked(old(occupied)@, position, max_level as nat)
                &&& final(map)@ == old(map)@.update(index as int, position as usize)
                &&& final(skipped)@ == old(skipped)@
            },
        },
{
    if size > atlas_size {
        skipped.push(index);
        None
    } else {
        proof {
            lemma_level_fits(size as nat, atlas_size as nat);
        }
        let level = texture_level_unchecked(size, atlas_size);
        let pos = first_free_position(level, occupied.as_slice(), max_level);
        if let Some(pos) = pos {
            proof {
                lemma_first_free_level(old(occupied)@, level as nat, max_level as nat);
                lemma_placement_contained(pos as nat, size as nat, atlas_size as nat);
                lemma_two_pow_positive(level as nat);
            }
            occupy(pos, occupied.as_mut_slice(), max_level);
            map[index] = pos;
            let block = position_to_block(pos);
            proof {
                lemma_block_inside_atlas(block.0 as nat, level as nat, atlas_size as nat);
                lemma_block_inside_atlas(block.1 as nat, level as nat, atlas_size as nat);
            }
            Some(block_to_tx(block, level, atlas_size))
        } else {
            skipped.push(index);
            None
        }
    }
}

/// Packs the images, in the order given, into an atlas of edge `atlas_size`
/// whose tree is `max_level` levels deep below the root.
pub fn textures_to_atlas(
    textures: &[DynamicImage],
    atlas_size: usize,
    alpha: bool,
    max_level: u32,
) -> (result: (Atlas, Option<Vec<usize>>))
    requires
        can_pack(textures@, atlas_size as nat, alpha, max_level as nat),
    ensures
        is_packing(
            result.0,
            result.1,
            atlas_size as nat,
            packed(
                sizes_of(textures@),
                samples_of(textures@, alpha),
                textures@.len(),
                atlas_size as nat,
                channel_count(alpha),
                max_level as nat,
            ),
        ),
{
    let count = textures.len();
    let mut map: Vec<usize> = vec![0usize; count];
    let channels: usize = if alpha {
        4
    } else {
        3
    };
    proof {
        assert(channels * atlas_size <= channels * atlas_size * atlas_size) by (nonlinear_arith)
            requires
                atlas_size >= 1,
        ;
    }
    let total = channels * atlas_size * atlas_size;
    let mut atlas: Vec<u8> = vec![0u8; total];
    let mut skipped: Vec<usize> = Vec::new();
    let mut occupied: Vec<bool> = vec![false; full_level_space(max_level)];
    let ghost sizes = sizes_of(textures@);
    let ghost samples = samples_of(textures@, alpha);
    let ghost asz = atlas_size as nat;
    let ghost ch = channels as nat;
    let ghost ml = max_level as nat;
    proof {
        assert(map@ =~= empty_packing(sizes.len(), asz, ch, ml).map);
        assert(atlas@ =~= empty_packing(sizes.len(), asz, ch, ml).texture);
        assert(occupied@ =~= empty_packing(sizes.len(), asz, ch, ml).occupied);
        assert(skipped@ =~= empty_packing(sizes.len(), asz, ch, ml).skipped);
    }
    let mut i: usize = 0;
    while i < count
        invariant
            i <= count,
            count == textures@.len(),
            can_pack(textures@, asz, alpha, ml),
            asz == atlas_size,
            ch == channels,
            ch == channel_count(alpha),
            ml == max_level,
            sizes == sizes_of(textures@),
            samples == samples_of(textures@, alpha),
            occupied@ == packed(sizes, samples, i as nat, asz, ch, ml).occupied,
            atlas@ == packed(sizes, samples, i as nat, asz, ch, ml).texture,
            map@ == packed(sizes, samples, i as nat, asz, ch, ml).map,
            skipped@ == packed(sizes, samples, i as nat, asz, ch, ml).skipped,
        decreases count - i,
    {
        let ghost before = packed(sizes, samples, i as nat, asz, ch, ml);
        proof {
            lemma_packed_lengths(sizes, samples, i as nat, asz, ch, ml);
            assert(fits_tree(textures@[i as int]));
            assert(packed(sizes, samples, (i + 1) as nat, asz, ch, ml) == pack_one(
                before,
                i as nat,
                sizes[i as int],
                samples[i as int],
                asz,
                ch,
                ml,
            ));
        }
        let tx = &textures[i];
        let size = texture_width(tx);
        proof {
            assert(atlas_size * atlas_size <= channels * atlas_size * atlas_size)
                by (nonlinear_arith)
                requires
                    channels >= 1,
            ;
        }
        let offset = allocate_texture(
            i,
            size,
            atlas_size,
            max_level,
            &mut occupied,
            &mut map,
            &mut skipped,
        );
        if let Some(tx_pos) = offset {
            let s = if alpha {
                texture_rgba(tx)
            } else {
                texture_rgb(tx)
            };
            proof {
                let w = size as nat;
                assert(ch * w * w <= s@.len()) by (nonlinear_arith)
                    requires
                        s@.len() >= ch * image_width(*tx) * image_height(*tx),
                        w == image_width(*tx),
                        w == image_height(*tx),
                ;
            }
            place_texture(atlas.as_mut_slice(), atlas_size, s.as_slice(), size, tx_pos, channels);
        }
        i += 1;
    }
    let left_out = if skipped.len() == 0 {
        None
    } else {
        Some(skipped)
    };
    (Atlas { texture: atlas, size: atlas_size, map }, left_out)
}

/// The level of an image that fits the atlas has no more nodes than the
/// atlas has pixels.
proof fn lemma_level_fits(size: nat, atlas_size: nat)
    requires
        is_pow2(size),
        is_pow2(atlas_size),
        size <= atlas_size,
        atlas_size * atlas_size <= usize::MAX,
    ensures
        level_for(size, atlas_size) >= 0,
        pow4(level_for(size, atlas_size) as nat) <= usize::MAX,
        two_pow(level_for(size, atlas_size) as nat) <= usize::MAX,
{
    lemma_block_size_is_image_size(size, atlas_size);
    let level = level_for(size, atlas_size) as nat;
    lemma_pow4_is_square(level);
    lemma_two_pow_positive(level);
    let p = two_pow(level);
    assert(p * p <= atlas_size * atlas_size && p <= p * p) by (nonlinear_arith)
        requires
            size * p == atlas_size,
            size >= 1,
            p >= 1,
    ;
}

/// Packs the images as `textures_to_atlas` does, after checking what it asks
/// of its input; `None` where the input does not meet it.
pub fn checked_textures_to_atlas(
    textures: &[DynamicImage],
    atlas_size: usize,
    alpha: bool,
    max_level: u32,
) -> (result: Option<(Atlas, Option<Vec<usize>>)>)
    ensures
        result is Some <==> can_pack(textures@, atlas_size as nat, alpha, max_level as nat),
        result matches Some(done) ==> is_packing(
            done.0,
            done.1,
            atlas_size as nat,
            packed(
                sizes_of(textures@),
                samples_of(textures@, alpha),
                textures@.len(),
                atlas_size as nat,
                channel_count(alpha),
                max_level as nat,
            ),
        ),
{
    let channels: usize = if alpha {
        4
    } else {
        3
    };
    if !is_power_of_two(atlas_size) {
        return None;
    }
    let fits = match channels.checked_mul(atlas_size) {
        None => false,
        Some(row) => row.checked_mul(atlas_size).is_some(),
    };
    proof {
        assert(channels * atlas_size <= channels * atlas_size * atlas_size) by (nonlinear_arith)
            requires
                atlas_size >= 1,
        ;
    }
    if !fits {
        return None;
    }
    if checked_full_level_space(max_level).is_none() {
        return None;
    }
    if !all_square_power_of_two(textures) {
        return None;
    }
    Some(textures_to_atlas(textures, atlas_size, alpha, max_level))
}

} // verus!
