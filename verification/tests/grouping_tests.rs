use skybox_composer::grouping::{get_skyboxes, GroupingError};
use skybox_composer::skybox_tile::{SkyboxTile, SkyboxTilePosition};

fn generate_skybox_tiles(prefix: &str) -> Vec<SkyboxTile> {
    vec!["left", "right", "up", "down", "front", "back"]
        .into_iter()
        .filter_map(|f| SkyboxTile::from_file(format!("{prefix}{f}.png")))
        .collect()
}

#[test]
fn generation_get_skyboxes_single_file() {
    let expected_skybox_tiles = generate_skybox_tiles("skybox_01a");

    let paths: Vec<String> = expected_skybox_tiles
        .iter()
        .map(|f| f.path().to_owned())
        .collect();

    let skyboxes = get_skyboxes(paths).expect("skybox generates");

    assert_eq!(skyboxes.valid.len(), 1);
    assert_eq!(skyboxes.skipped.len(), 0);
    assert_eq!(skyboxes.valid[0].prefix, "skybox_01a".to_owned());
    assert_eq!(skyboxes.valid[0].tiles, expected_skybox_tiles);
}

#[test]
fn generation_get_skyboxes_multiple_files() {
    let expected_skybox_tiles_1 = generate_skybox_tiles("skybox_01a");
    let expected_skybox_tiles_2 = generate_skybox_tiles("skybox_02a");

    let paths: Vec<String> = expected_skybox_tiles_1
        .iter()
        .chain(expected_skybox_tiles_2.iter())
        .map(|f| f.path().to_owned())
        .collect();

    let skyboxes = get_skyboxes(paths).expect("skybox generates");

    assert_eq!(skyboxes.valid.len(), 2);
    assert_eq!(skyboxes.skipped.len(), 0);
    assert_eq!(skyboxes.valid[0].prefix, "skybox_01a".to_owned());
    assert_eq!(skyboxes.valid[0].tiles, expected_skybox_tiles_1);
    assert_eq!(skyboxes.valid[1].prefix, "skybox_02a".to_owned());
    assert_eq!(skyboxes.valid[1].tiles, expected_skybox_tiles_2);
}

#[test]
fn lib_get_skyboxes_single_file() {
    let expected_skybox_tiles = generate_skybox_tiles("skybox_01a");

    let paths: Vec<String> = expected_skybox_tiles
        .iter()
        .map(|f| f.path().to_owned())
        .collect();

    let skyboxes = get_skyboxes(paths).unwrap();

    assert_eq!(skyboxes.valid.len(), 1);
    assert_eq!(skyboxes.valid[0].prefix, "skybox_01a".to_owned());
    assert_eq!(skyboxes.valid[0].tiles, expected_skybox_tiles);
}

#[test]
fn lib_get_skyboxes_multiple_files() {
    let expected_skybox_tiles_1 = generate_skybox_tiles("skybox_01a");
    let expected_skybox_tiles_2 = generate_skybox_tiles("skybox_02a");

    let paths: Vec<String> = expected_skybox_tiles_1
        .iter()
        .chain(expected_skybox_tiles_2.iter())
        .map(|f| f.path().to_owned())
        .collect();

    let skyboxes = get_skyboxes(paths).unwrap();

    assert_eq!(skyboxes.valid.len(), 2);
    assert_eq!(skyboxes.valid[0].prefix, "skybox_01a".to_owned());
    assert_eq!(skyboxes.valid[0].tiles, expected_skybox_tiles_1);
    assert_eq!(skyboxes.valid[1].prefix, "skybox_02a".to_owned());
    assert_eq!(skyboxes.valid[1].tiles, expected_skybox_tiles_2);
}

#[test]
fn canonical_set_groups_in_any_input_order() {
    // the six canonical names, deliberately shuffled
    let paths: Vec<String> = vec![
        "Pdown.png", "Pback.png", "Pleft.png", "Pfront.png", "Pup.png", "Pright.png",
    ]
    .into_iter()
    .map(str::to_owned)
    .collect();

    let skyboxes = get_skyboxes(paths).unwrap();

    assert_eq!(skyboxes.valid.len(), 1);
    assert_eq!(skyboxes.skipped.len(), 0);
    assert_eq!(skyboxes.valid[0].prefix, "P".to_owned());
    assert_eq!(skyboxes.valid[0].tiles.len(), 6);
    let faces: Vec<SkyboxTilePosition> = skyboxes.valid[0]
        .tiles
        .iter()
        .map(|t| *t.position())
        .collect();
    assert_eq!(
        faces,
        vec![
            SkyboxTilePosition::Down,
            SkyboxTilePosition::Back,
            SkyboxTilePosition::Left,
            SkyboxTilePosition::Front,
            SkyboxTilePosition::Up,
            SkyboxTilePosition::Right,
        ]
    );
}

#[test]
fn missing_one_face_is_reported() {
    // "down" is absent: the group is excluded and exactly that face is named
    let paths: Vec<String> = vec![
        "skyleft.png", "skyright.png", "skyup.png", "skyfront.png", "skyback.png",
    ]
    .into_iter()
    .map(str::to_owned)
    .collect();

    let skyboxes = get_skyboxes(paths).unwrap();

    assert_eq!(skyboxes.valid.len(), 0);
    assert_eq!(skyboxes.skipped.len(), 1);
    assert_eq!(skyboxes.skipped[0].prefix, "sky".to_owned());
    assert_eq!(skyboxes.skipped[0].missing, vec![SkyboxTilePosition::Down]);
}

#[test]
fn duplicate_face_rejects_group() {
    // seven tiles: every face once plus a second "left"; the set is not
    // exactly six distinct faces and is excluded with nothing missing
    let paths: Vec<String> = vec![
        "aleft.png", "aright.png", "aup.png", "adown.png", "afront.png", "aback.png",
        "subdir/aleft.png",
    ]
    .into_iter()
    .map(str::to_owned)
    .collect();

    let skyboxes = get_skyboxes(paths).unwrap();

    assert_eq!(skyboxes.valid.len(), 0);
    assert_eq!(skyboxes.skipped.len(), 1);
    assert_eq!(skyboxes.skipped[0].prefix, "a".to_owned());
    assert_eq!(skyboxes.skipped[0].missing, Vec::<SkyboxTilePosition>::new());
}

#[test]
fn unmatched_files_affect_no_group() {
    // the same complete group with unclassifiable names sprinkled in
    let paths: Vec<String> = vec![
        "notes.txt", "Pleft.png", "Pright.png", "middle.png", "Pup.png", "Pdown.png",
        "Pfront.png", "Pback.png", "left",
    ]
    .into_iter()
    .map(str::to_owned)
    .collect();

    let skyboxes = get_skyboxes(paths).unwrap();

    assert_eq!(skyboxes.valid.len(), 1);
    assert_eq!(skyboxes.skipped.len(), 0);
    assert_eq!(skyboxes.valid[0].prefix, "P".to_owned());
    assert_eq!(skyboxes.valid[0].tiles.len(), 6);
}

#[test]
fn no_classifiable_tiles_is_fatal() {
    let paths: Vec<String> = vec!["notes.txt".to_owned(), "left".to_owned()];
    let r = get_skyboxes(paths);
    assert!(matches!(r, Err(GroupingError::NoClassifiableTiles)));

    let r_empty = get_skyboxes(Vec::new());
    assert!(matches!(r_empty, Err(GroupingError::NoClassifiableTiles)));
}

#[test]
fn two_groups_share_no_tiles() {
    let paths: Vec<String> = vec![
        "aleft.png", "bright.png", "aright.png", "bleft.png", "aup.png", "bup.png",
        "adown.png", "bdown.png", "afront.png", "bfront.png", "aback.png", "bback.png",
    ]
    .into_iter()
    .map(str::to_owned)
    .collect();

    let skyboxes = get_skyboxes(paths).unwrap();

    assert_eq!(skyboxes.valid.len(), 2);
    assert_eq!(skyboxes.valid[0].prefix, "a".to_owned());
    assert_eq!(skyboxes.valid[1].prefix, "b".to_owned());
    for g in &skyboxes.valid {
        assert_eq!(g.tiles.len(), 6);
        for t in &g.tiles {
            assert_eq!(t.prefix(), g.prefix.as_str());
        }
    }
}
