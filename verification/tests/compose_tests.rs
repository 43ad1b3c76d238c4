use skybox_composer::compose::{
    compose_skybox, ComposeError, SkipReason, TileSkip, TileSource,
};
use skybox_composer::generation::process_group;
use skybox_composer::skybox_tile::SkyboxTilePosition;

fn png_solid(w: u32, h: u32, rgba: [u8; 4]) -> Vec<u8> {
    let img = image::RgbaImage::from_pixel(w, h, image::Rgba(rgba));
    let mut cur = std::io::Cursor::new(Vec::new());
    img.write_to(&mut cur, image::ImageFormat::Png).unwrap();
    cur.into_inner()
}

fn tile(path: &str, position: SkyboxTilePosition, bytes: Vec<u8>) -> TileSource {
    TileSource { path: path.to_owned(), position, bytes: Some(bytes) }
}

const LEFT: [u8; 4] = [255, 0, 0, 255];
const RIGHT: [u8; 4] = [0, 255, 0, 255];
const UP: [u8; 4] = [0, 0, 255, 255];
const DOWN: [u8; 4] = [255, 255, 0, 255];
const FRONT: [u8; 4] = [255, 0, 255, 255];
const BACK: [u8; 4] = [0, 255, 255, 255];

fn solid_set(w: u32, h: u32) -> Vec<TileSource> {
    named_solid_set("P", w, h)
}

fn named_solid_set(prefix: &str, w: u32, h: u32) -> Vec<TileSource> {
    vec![
        tile(&format!("{prefix}left.png"), SkyboxTilePosition::Left, png_solid(w, h, LEFT)),
        tile(&format!("{prefix}right.png"), SkyboxTilePosition::Right, png_solid(w, h, RIGHT)),
        tile(&format!("{prefix}up.png"), SkyboxTilePosition::Up, png_solid(w, h, UP)),
        tile(&format!("{prefix}down.png"), SkyboxTilePosition::Down, png_solid(w, h, DOWN)),
        tile(&format!("{prefix}front.png"), SkyboxTilePosition::Front, png_solid(w, h, FRONT)),
        tile(&format!("{prefix}back.png"), SkyboxTilePosition::Back, png_solid(w, h, BACK)),
    ]
}

#[test]
fn composes_cross_layout_with_exact_placement() {
    let tiles = solid_set(1, 1);
    let out = compose_skybox(&tiles).unwrap();

    assert_eq!(out.width, 4);
    assert_eq!(out.height, 3);
    assert_eq!(out.skipped, Vec::<TileSkip>::new());

    let canvas = image::load_from_memory_with_format(&out.bytes, image::ImageFormat::Png).unwrap().to_rgba8();
    assert_eq!(canvas.dimensions(), (4, 3));

    // the placement table: Up (1,0); Left (0,1); Front (1,1); Right (2,1);
    // Back (3,1); Down (1,2)
    assert_eq!(canvas.get_pixel(1, 0).0, UP);
    assert_eq!(canvas.get_pixel(0, 1).0, LEFT);
    assert_eq!(canvas.get_pixel(1, 1).0, FRONT);
    assert_eq!(canvas.get_pixel(2, 1).0, RIGHT);
    assert_eq!(canvas.get_pixel(3, 1).0, BACK);
    assert_eq!(canvas.get_pixel(1, 2).0, DOWN);

    // every cell that no face owns stays fully transparent
    for (x, y) in [(0, 0), (2, 0), (3, 0), (0, 2), (2, 2), (3, 2)] {
        assert_eq!(canvas.get_pixel(x, y).0, [0, 0, 0, 0]);
    }
}

#[test]
fn composes_larger_tiles_cell_by_cell() {
    let tiles = solid_set(3, 2);
    let out = compose_skybox(&tiles).unwrap();

    assert_eq!(out.width, 12);
    assert_eq!(out.height, 6);

    let canvas = image::load_from_memory_with_format(&out.bytes, image::ImageFormat::Png).unwrap().to_rgba8();
    assert_eq!(canvas.dimensions(), (12, 6));

    // sample every pixel of the Back cell (cells are 3x2, Back at (3,1))
    for dx in 0..3 {
        for dy in 0..2 {
            assert_eq!(canvas.get_pixel(9 + dx, 2 + dy).0, BACK);
        }
    }
    // and a blank cell, top-left
    for dx in 0..3 {
        for dy in 0..2 {
            assert_eq!(canvas.get_pixel(dx, dy).0, [0, 0, 0, 0]);
        }
    }
}

#[test]
fn mismatched_tile_leaves_only_its_cell_blank() {
    let mut tiles = solid_set(1, 1);
    // the Right tile alone has alien dimensions; it is not the reference
    tiles[1] = tile("Pright.png", SkyboxTilePosition::Right, png_solid(2, 2, RIGHT));

    let out = compose_skybox(&tiles).unwrap();
    assert_eq!(
        out.skipped,
        vec![TileSkip {
            position: SkyboxTilePosition::Right,
            reason: SkipReason::DimensionMismatch,
        }]
    );

    let canvas = image::load_from_memory_with_format(&out.bytes, image::ImageFormat::Png).unwrap().to_rgba8();
    assert_eq!(canvas.dimensions(), (4, 3));
    assert_eq!(canvas.get_pixel(2, 1).0, [0, 0, 0, 0]);
    // no other cell is affected
    assert_eq!(canvas.get_pixel(1, 0).0, UP);
    assert_eq!(canvas.get_pixel(0, 1).0, LEFT);
    assert_eq!(canvas.get_pixel(1, 1).0, FRONT);
    assert_eq!(canvas.get_pixel(3, 1).0, BACK);
    assert_eq!(canvas.get_pixel(1, 2).0, DOWN);
}

#[test]
fn undecodable_tile_leaves_only_its_cell_blank() {
    let mut tiles = solid_set(1, 1);
    tiles[3] = tile("Pdown.png", SkyboxTilePosition::Down, vec![0xde, 0xad]);

    let out = compose_skybox(&tiles).unwrap();
    assert_eq!(
        out.skipped,
        vec![TileSkip { position: SkyboxTilePosition::Down, reason: SkipReason::DecodeFailed }]
    );

    let canvas = image::load_from_memory_with_format(&out.bytes, image::ImageFormat::Png).unwrap().to_rgba8();
    assert_eq!(canvas.get_pixel(1, 2).0, [0, 0, 0, 0]);
    assert_eq!(canvas.get_pixel(1, 1).0, FRONT);
}

#[test]
fn reference_decode_failure_fails_group_and_deletes_nothing() {
    let mut tiles = solid_set(1, 1);
    tiles[0] = tile("Pleft.png", SkyboxTilePosition::Left, vec![1, 2, 3]);

    assert_eq!(compose_skybox(&tiles), Err(ComposeError::ReferenceDecodeFailed));

    // even with deletion requested, a failed group plans no deletion
    let plan = process_group("P", &tiles, true);
    assert_eq!(plan.result, Err(ComposeError::ReferenceDecodeFailed));
    assert_eq!(plan.deletions, Vec::<String>::new());
    assert_eq!(plan.output_name, "Pskybox.png".to_owned());
}

#[test]
fn unreadable_reference_counts_as_decode_failure() {
    let mut tiles = solid_set(1, 1);
    tiles[0] = TileSource {
        path: "Pleft.png".to_owned(),
        position: SkyboxTilePosition::Left,
        bytes: None,
    };
    assert_eq!(compose_skybox(&tiles), Err(ComposeError::ReferenceDecodeFailed));
}

#[test]
fn deletion_follows_the_flag_and_success() {
    let tiles = solid_set(1, 1);

    let plan = process_group("P", &tiles, true);
    assert!(plan.result.is_ok());
    assert_eq!(
        plan.deletions,
        vec![
            "Pleft.png".to_owned(),
            "Pright.png".to_owned(),
            "Pup.png".to_owned(),
            "Pdown.png".to_owned(),
            "Pfront.png".to_owned(),
            "Pback.png".to_owned(),
        ]
    );

    let plan_keep = process_group("P", &tiles, false);
    assert!(plan_keep.result.is_ok());
    assert_eq!(plan_keep.deletions, Vec::<String>::new());
}

#[test]
fn recomposing_unchanged_inputs_is_byte_identical() {
    let tiles = solid_set(2, 2);
    let out1 = compose_skybox(&tiles).unwrap();
    let out2 = compose_skybox(&tiles).unwrap();
    assert_eq!(out1.bytes, out2.bytes);
    assert_eq!(out1.skipped, out2.skipped);
}

#[test]
fn groups_compose_independently() {
    let group_a = solid_set(1, 1);
    let group_b_good = named_solid_set("Q", 1, 1);
    let mut group_b_corrupt = named_solid_set("Q", 1, 1);

    // first run: both groups intact
    let a_first = compose_skybox(&group_a).unwrap();
    let b_first = compose_skybox(&group_b_good).unwrap();
    assert_eq!(a_first.width, 4);
    assert_eq!(b_first.width, 4);

    // second run: group Q's reference is corrupted; group P is untouched
    group_b_corrupt[0].bytes = Some(vec![9, 9, 9]);
    let a_second = compose_skybox(&group_a).unwrap();
    let b_second = compose_skybox(&group_b_corrupt);

    assert_eq!(b_second, Err(ComposeError::ReferenceDecodeFailed));
    assert_eq!(a_first.bytes, a_second.bytes);
}
