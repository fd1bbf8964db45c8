use image::{DynamicImage, GrayImage, Rgb, RgbImage, RgbaImage};
use texture_atlas::atlas::{
    all_square_power_of_two, allocate_texture, checked_textures_to_atlas,
    is_square_power_of_two, textures_to_atlas,
};
use texture_atlas::codec::position_to_level;
use texture_atlas::placement::{block_to_tx, position_to_block};

fn blank(edge: u32) -> DynamicImage {
    DynamicImage::new_rgb8(edge, edge)
}

fn rgb(edge: u32, bytes: Vec<u8>) -> DynamicImage {
    DynamicImage::ImageRgb8(RgbImage::from_raw(edge, edge, bytes).unwrap())
}

fn rgba(edge: u32, bytes: Vec<u8>) -> DynamicImage {
    DynamicImage::ImageRgba8(RgbaImage::from_raw(edge, edge, bytes).unwrap())
}

#[test]
fn five_full_size_images_leave_four_out() {
    let textures: Vec<DynamicImage> = (0..5).map(|_| blank(128)).collect();
    let (atlas, skipped) = textures_to_atlas(&textures, 128, false, 3);
    assert_eq!(atlas.size, 128);
    assert_eq!(atlas.texture.len(), 128 * 128 * 3);
    assert_eq!(atlas.map, vec![0, 0, 0, 0, 0]);
    assert_eq!(skipped, Some(vec![1, 2, 3, 4]));
}

#[test]
fn four_half_size_images_fill_the_four_quarters() {
    let textures: Vec<DynamicImage> = (0..4).map(|_| blank(64)).collect();
    let (atlas, skipped) = textures_to_atlas(&textures, 128, false, 2);
    assert_eq!(atlas.map, vec![1, 2, 3, 4]);
    assert_eq!(skipped, None);
    let blocks: Vec<(usize, usize)> = atlas.map.iter().map(|p| position_to_block(*p)).collect();
    assert_eq!(blocks, vec![(0, 0), (1, 0), (0, 1), (1, 1)]);
    let offsets: Vec<(usize, usize)> =
        blocks.iter().map(|b| block_to_tx(*b, 1, 128)).collect();
    assert_eq!(offsets, vec![(0, 0), (64, 0), (0, 64), (64, 64)]);
}

#[test]
fn a_fifth_half_size_image_is_left_out() {
    let textures: Vec<DynamicImage> = (0..5).map(|_| blank(64)).collect();
    let (atlas, skipped) = textures_to_atlas(&textures, 128, true, 2);
    assert_eq!(atlas.texture.len(), 128 * 128 * 4);
    assert_eq!(atlas.map, vec![1, 2, 3, 4, 0]);
    assert_eq!(skipped, Some(vec![4]));
}

#[test]
fn a_smaller_image_goes_beside_a_larger_one() {
    let textures = vec![blank(64), blank(32)];
    let (atlas, skipped) = textures_to_atlas(&textures, 128, false, 2);
    assert_eq!(skipped, None);
    assert_eq!(atlas.map, vec![1, 9]);
    assert_eq!(position_to_block(9), (2, 0));
    assert_eq!(block_to_tx(position_to_block(9), 2, 128), (64, 0));
}

#[test]
fn a_larger_image_goes_beside_a_smaller_one() {
    let textures = vec![blank(32), blank(64), blank(32)];
    let (atlas, skipped) = textures_to_atlas(&textures, 128, false, 3);
    assert_eq!(skipped, None);
    assert_eq!(atlas.map, vec![5, 2, 6]);
}

#[test]
fn an_image_larger_than_the_atlas_is_left_out() {
    let textures = vec![blank(256), blank(128)];
    let (atlas, skipped) = textures_to_atlas(&textures, 128, false, 3);
    assert_eq!(atlas.map, vec![0, 0]);
    assert_eq!(skipped, Some(vec![0]));
}

#[test]
fn an_image_finer_than_the_deepest_level_is_left_out() {
    let textures = vec![blank(16), blank(32)];
    let (atlas, skipped) = textures_to_atlas(&textures, 128, false, 2);
    assert_eq!(atlas.map, vec![0, 5]);
    assert_eq!(skipped, Some(vec![0]));
}

#[test]
fn no_images_give_an_empty_atlas() {
    let textures: Vec<DynamicImage> = Vec::new();
    let (atlas, skipped) = textures_to_atlas(&textures, 4, false, 1);
    assert_eq!(atlas.texture, vec![0u8; 48]);
    assert_eq!(atlas.size, 4);
    assert!(atlas.map.is_empty());
    assert_eq!(skipped, None);
}

#[test]
fn packing_twice_gives_the_same_map() {
    let textures = vec![blank(32), blank(64), blank(16), blank(128), blank(64), blank(32)];
    let (first, first_skipped) = textures_to_atlas(&textures, 128, false, 3);
    let (second, second_skipped) = textures_to_atlas(&textures, 128, false, 3);
    assert_eq!(first.map, second.map);
    assert_eq!(first_skipped, second_skipped);
    assert_eq!(first.texture, second.texture);
    assert_eq!(first.map, vec![5, 2, 25, 0, 3, 7]);
    assert_eq!(first_skipped, Some(vec![3]));
}

#[test]
fn pixels_land_in_their_block_with_rows_flipped() {
    let first = rgb(2, vec![1, 2, 3, 4, 5, 6, 7, 8, 9, 10, 11, 12]);
    let second = rgb(2, vec![21, 22, 23, 24, 25, 26, 27, 28, 29, 30, 31, 32]);
    let (atlas, skipped) = textures_to_atlas(&[first, second], 4, false, 1);
    assert_eq!(skipped, None);
    assert_eq!(atlas.map, vec![1, 2]);
    let mut expected = vec![0u8; 48];
    expected[24..30].copy_from_slice(&[1, 2, 3, 4, 5, 6]);
    expected[36..42].copy_from_slice(&[7, 8, 9, 10, 11, 12]);
    expected[30..36].copy_from_slice(&[21, 22, 23, 24, 25, 26]);
    expected[42..48].copy_from_slice(&[27, 28, 29, 30, 31, 32]);
    assert_eq!(atlas.texture, expected);
}

#[test]
fn pixels_of_the_lower_blocks_land_in_the_first_rows() {
    let textures = vec![blank(1), blank(1), rgb(1, vec![7, 8, 9]), rgb(1, vec![1, 2, 3])];
    let (atlas, skipped) = textures_to_atlas(&textures, 2, false, 1);
    assert_eq!(skipped, None);
    assert_eq!(atlas.map, vec![1, 2, 3, 4]);
    assert_eq!(atlas.texture, vec![7, 8, 9, 1, 2, 3, 0, 0, 0, 0, 0, 0]);
}

#[test]
fn alpha_is_dropped_for_an_atlas_without_it() {
    let texture = rgba(1, vec![10, 20, 30, 40]);
    let (atlas, _) = textures_to_atlas(&[texture], 1, false, 0);
    assert_eq!(atlas.texture, vec![10, 20, 30]);
}

#[test]
fn alpha_is_added_for_an_atlas_with_it() {
    let texture = rgb(1, vec![10, 20, 30]);
    let (atlas, _) = textures_to_atlas(&[texture], 1, true, 0);
    assert_eq!(atlas.texture, vec![10, 20, 30, 255]);
    let texture = rgba(1, vec![10, 20, 30, 40]);
    let (atlas, _) = textures_to_atlas(&[texture], 1, true, 0);
    assert_eq!(atlas.texture, vec![10, 20, 30, 40]);
}

#[test]
fn gray_is_spread_over_the_colour_channels() {
    let texture = DynamicImage::ImageLuma8(GrayImage::from_raw(1, 1, vec![77]).unwrap());
    let (atlas, _) = textures_to_atlas(&[texture], 1, false, 0);
    assert_eq!(atlas.texture, vec![77, 77, 77]);
}

#[test]
fn is_square_power_of_two_reads_both_edges() {
    assert!(is_square_power_of_two(&blank(64)));
    assert!(is_square_power_of_two(&blank(1)));
    assert!(!is_square_power_of_two(&blank(48)));
    assert!(!is_square_power_of_two(&blank(0)));
    assert!(!is_square_power_of_two(&DynamicImage::new_rgb8(64, 32)));
    assert!(!is_square_power_of_two(&DynamicImage::new_rgba8(32, 64)));
    assert!(all_square_power_of_two(&[blank(2), blank(4)]));
    assert!(!all_square_power_of_two(&[blank(2), blank(3)]));
    assert!(all_square_power_of_two(&[]));
}

#[test]
fn checked_packing_refuses_what_packing_cannot_take() {
    assert!(checked_textures_to_atlas(&[blank(64)], 100, false, 2).is_none());
    assert!(checked_textures_to_atlas(&[blank(64)], 0, false, 2).is_none());
    assert!(checked_textures_to_atlas(&[blank(48)], 128, false, 2).is_none());
    assert!(checked_textures_to_atlas(&[DynamicImage::new_rgb8(64, 32)], 128, false, 2).is_none());
    assert!(checked_textures_to_atlas(&[blank(64)], 128, false, 40).is_none());
    assert!(checked_textures_to_atlas(&[blank(64)], 1usize << (usize::BITS - 1), true, 2).is_none());
}

#[test]
fn checked_packing_packs_what_packing_can_take() {
    let textures = vec![blank(64), blank(32), blank(256)];
    let (atlas, skipped) = checked_textures_to_atlas(&textures, 128, false, 2).unwrap();
    let (plain, plain_skipped) = textures_to_atlas(&textures, 128, false, 2);
    assert_eq!(atlas.map, vec![1, 9, 0]);
    assert_eq!(skipped, Some(vec![2]));
    assert_eq!(atlas.map, plain.map);
    assert_eq!(skipped, plain_skipped);
    assert_eq!(atlas.texture, plain.texture);
}

#[test]
fn placed_images_keep_their_pixels() {
    let edges: [u32; 9] = [32, 64, 16, 128, 64, 32, 16, 16, 64];
    let textures: Vec<DynamicImage> = edges
        .iter()
        .enumerate()
        .map(|(i, edge)| {
            let shade = (i + 1) as u8;
            DynamicImage::ImageRgb8(RgbImage::from_pixel(*edge, *edge, Rgb([shade, shade, shade])))
        })
        .collect();
    let atlas_size: usize = 128;
    let (atlas, skipped) = textures_to_atlas(&textures, atlas_size, false, 3);
    let skipped = skipped.unwrap();
    assert_eq!(skipped, vec![3]);
    assert_eq!(atlas.map, vec![5, 2, 25, 0, 3, 7, 26, 27, 4]);
    let mut owner = vec![0u8; atlas_size * atlas_size];
    for (i, edge) in edges.iter().enumerate() {
        if skipped.contains(&i) {
            continue;
        }
        let size = *edge as usize;
        let level = position_to_level(atlas.map[i]);
        let (x, y) = block_to_tx(position_to_block(atlas.map[i]), level, atlas_size);
        assert_eq!(atlas_size >> level, size);
        assert!(x + size <= atlas_size && y + size <= atlas_size);
        for row in atlas_size - y - size..atlas_size - y {
            for col in x..x + size {
                assert_eq!(owner[row * atlas_size + col], 0);
                owner[row * atlas_size + col] = (i + 1) as u8;
            }
        }
    }
    for pixel in 0..atlas_size * atlas_size {
        for channel in 0..3 {
            assert_eq!(atlas.texture[3 * pixel + channel], owner[pixel]);
        }
    }
}

#[test]
fn allocate_texture_gives_blocks_in_morton_order() {
    let mut occupied = vec![false; 21];
    let mut map = vec![0usize; 6];
    let mut skipped = Vec::new();
    let mut offsets = Vec::new();
    for index in 0..5 {
        offsets.push(allocate_texture(index, 64, 128, 2, &mut occupied, &mut map, &mut skipped));
    }
    assert_eq!(
        offsets,
        vec![Some((0, 0)), Some((64, 0)), Some((0, 64)), Some((64, 64)), None]
    );
    assert_eq!(map, vec![1, 2, 3, 4, 0, 0]);
    assert_eq!(skipped, vec![4]);
    assert!(occupied.iter().all(|flag| *flag));
}

#[test]
fn allocate_texture_leaves_out_what_does_not_fit() {
    let mut occupied = vec![false; 21];
    let mut map = vec![7usize; 3];
    let mut skipped = vec![9usize];
    assert_eq!(allocate_texture(0, 256, 128, 2, &mut occupied, &mut map, &mut skipped), None);
    assert_eq!(allocate_texture(1, 16, 128, 2, &mut occupied, &mut map, &mut skipped), None);
    assert_eq!(occupied, vec![false; 21]);
    assert_eq!(map, vec![7, 7, 7]);
    assert_eq!(skipped, vec![9, 0, 1]);
    assert_eq!(
        allocate_texture(2, 32, 128, 2, &mut occupied, &mut map, &mut skipped),
        Some((0, 0))
    );
    assert_eq!(map, vec![7, 7, 5]);
    assert_eq!(skipped, vec![9, 0, 1]);
    let taken: Vec<usize> = (0..21).filter(|i| occupied[*i]).collect();
    assert_eq!(taken, vec![0, 1, 5]);
}
