use std::io::Cursor;

use image::{DynamicImage, ImageFormat, Rgba, RgbaImage};
use voxel_world::block_model::{BlockModel, CubeModel};
use voxel_world::block::Block;
use voxel_world::block_registry::BlockRegistry;
use voxel_world::texture::{decode_image, AtlasError, TextureAtlas};

fn png(size: u32, color: [u8; 4]) -> Vec<u8> {
    let image = RgbaImage::from_pixel(size, size, Rgba(color));
    let mut bytes = Vec::new();
    DynamicImage::ImageRgba8(image)
        .write_to(&mut Cursor::new(&mut bytes), ImageFormat::Png)
        .unwrap();
    bytes
}

fn standard() -> Vec<(String, Vec<u8>)> {
    vec![
        ("stone".to_string(), png(2, [10, 10, 10, 255])),
        ("dirt".to_string(), png(2, [20, 20, 20, 255])),
        ("grass_side".to_string(), png(2, [30, 30, 30, 255])),
        ("grass_top".to_string(), png(2, [40, 40, 40, 255])),
        ("sand".to_string(), png(2, [50, 50, 50, 255])),
    ]
}

fn refs(textures: &[(String, Vec<u8>)]) -> Vec<(&str, &[u8])> {
    textures.iter().map(|(n, b)| (n.as_str(), b.as_slice())).collect()
}

#[test]
fn atlas_lays_tiles_out_row_by_row() {
    let textures = standard();
    let (atlas, image) = TextureAtlas::build(&refs(&textures), 2).unwrap();
    // five tiles: 3 columns (3 * 3 >= 5 > 2 * 2), 2 rows
    assert_eq!(atlas.columns, 3);
    assert_eq!(atlas.rows, 2);
    assert_eq!(atlas.tile_size, 2);
    assert_eq!(image.width, 6);
    assert_eq!(image.height, 4);
    assert_eq!(image.pixels.len(), 6 * 4 * 4);
    let pixel = |x: usize, y: usize| image.pixels[(y * 6 + x) * 4];
    assert_eq!(pixel(0, 0), 10);
    assert_eq!(pixel(1, 1), 10);
    assert_eq!(pixel(2, 0), 20);
    assert_eq!(pixel(5, 1), 30);
    assert_eq!(pixel(0, 2), 40);
    assert_eq!(pixel(3, 3), 50);
    // the sixth cell of the grid has no tile: transparent black
    assert_eq!(&image.pixels[(2 * 6 + 4) * 4..(2 * 6 + 4) * 4 + 4], &[0, 0, 0, 0]);
    assert_eq!(image.pixels[(1 * 6 + 1) * 4 + 3], 255);
}

#[test]
fn atlas_indices_follow_the_texture_order() {
    let textures = standard();
    let (atlas, _) = TextureAtlas::build(&refs(&textures), 2).unwrap();
    assert_eq!(atlas.index("stone").unwrap(), 0);
    assert_eq!(atlas.index("grass_top").unwrap(), 3);
    assert_eq!(atlas.index("sand").unwrap(), 4);
    match atlas.index("lava") {
        Err(AtlasError::UnknownTexture { name }) => assert_eq!(name, "lava"),
        other => panic!("unexpected {:?}", other),
    }
}

#[test]
fn a_repeated_name_keeps_its_last_index() {
    let textures = vec![
        ("stone".to_string(), png(1, [1, 1, 1, 1])),
        ("stone".to_string(), png(1, [2, 2, 2, 2])),
    ];
    let (atlas, _) = TextureAtlas::build(&refs(&textures), 1).unwrap();
    assert_eq!(atlas.index("stone").unwrap(), 1);
}

#[test]
fn no_textures_is_an_error() {
    assert!(matches!(TextureAtlas::build(&[], 16), Err(AtlasError::NoTextures)));
}

#[test]
fn a_tile_of_the_wrong_size_is_an_error() {
    let textures = vec![
        ("stone".to_string(), png(2, [1, 1, 1, 1])),
        ("dirt".to_string(), png(3, [1, 1, 1, 1])),
        ("bad".to_string(), vec![1, 2, 3]),
    ];
    match TextureAtlas::build(&refs(&textures), 2) {
        Err(AtlasError::WrongSize { name, width, height, expected }) => {
            assert_eq!(name, "dirt");
            assert_eq!((width, height, expected), (3, 3, 2));
        }
        other => panic!("unexpected {:?}", other.err()),
    }
}

#[test]
fn bytes_that_are_no_image_are_an_error() {
    let textures = vec![("stone".to_string(), png(2, [1, 1, 1, 1])), ("junk".to_string(), vec![0, 1, 2, 3, 4])];
    match TextureAtlas::build(&refs(&textures), 2) {
        Err(AtlasError::Decode { name }) => assert_eq!(name, "junk"),
        other => panic!("unexpected {:?}", other.err()),
    }
}

#[test]
fn single_texture_atlas_is_one_tile() {
    let textures = vec![("stone".to_string(), png(4, [9, 8, 7, 6]))];
    let (atlas, image) = TextureAtlas::build(&refs(&textures), 4).unwrap();
    assert_eq!((atlas.columns, atlas.rows), (1, 1));
    assert_eq!((image.width, image.height), (4, 4));
    assert_eq!(&image.pixels[0..4], &[9, 8, 7, 6]);
}

#[test]
fn registry_from_atlas_uses_the_named_tiles() {
    let textures = standard();
    let (atlas, _) = TextureAtlas::build(&refs(&textures), 2).unwrap();
    let registry = BlockRegistry::new(&atlas).unwrap();
    assert_eq!(registry.model(Block::Stone), Some(BlockModel::Cube(CubeModel::all(0))));
    assert_eq!(registry.model(Block::Grass), Some(BlockModel::Cube(CubeModel::new(2, 2, 2, 2, 3, 1))));
    assert_eq!(registry.model(Block::Dirt), Some(BlockModel::Cube(CubeModel::all(1))));
    assert_eq!(registry.model(Block::Air), None);
}

#[test]
fn registry_reports_the_first_missing_texture() {
    let textures = vec![("stone".to_string(), png(1, [0, 0, 0, 0])), ("grass_top".to_string(), png(1, [0, 0, 0, 0]))];
    let (atlas, _) = TextureAtlas::build(&refs(&textures), 1).unwrap();
    match BlockRegistry::new(&atlas) {
        Err(AtlasError::UnknownTexture { name }) => assert_eq!(name, "dirt"),
        other => panic!("unexpected {:?}", other.is_ok()),
    }
}

#[test]
fn decode_image_gives_rgba_pixels() {
    let image = RgbaImage::from_fn(3, 2, |x, y| Rgba([x as u8, y as u8, 7, 255]));
    let mut bytes = Vec::new();
    DynamicImage::ImageRgba8(image).write_to(&mut Cursor::new(&mut bytes), ImageFormat::Png).unwrap();
    let decoded = decode_image(&bytes).unwrap();
    assert_eq!(decoded.width, 3);
    assert_eq!(decoded.height, 2);
    assert_eq!(decoded.pixels.len(), 24);
    assert_eq!(&decoded.pixels[0..8], &[0, 0, 7, 255, 1, 0, 7, 255]);
    assert_eq!(&decoded.pixels[12..16], &[0, 1, 7, 255]);
}

#[test]
fn decode_image_refuses_bytes_that_are_no_image() {
    assert!(decode_image(&[0, 1, 2, 3, 4]).is_err());
}
