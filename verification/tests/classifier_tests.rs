use skybox_composer::skybox_tile::{SkyboxTile, SkyboxTilePosition};

#[test]
fn classifies_each_face() {
    let cases = vec![
        ("left", SkyboxTilePosition::Left),
        ("right", SkyboxTilePosition::Right),
        ("up", SkyboxTilePosition::Up),
        ("down", SkyboxTilePosition::Down),
        ("front", SkyboxTilePosition::Front),
        ("back", SkyboxTilePosition::Back),
    ];
    for (word, face) in cases {
        let tile = SkyboxTile::from_file(format!("room_{word}.png")).unwrap();
        assert_eq!(*tile.position(), face);
        assert_eq!(tile.prefix(), "room_");
        assert_eq!(tile.path(), format!("room_{word}.png").as_str());
    }
}

#[test]
fn classifies_with_empty_prefix_and_other_extensions() {
    let t = SkyboxTile::from_file("left.png".to_owned()).unwrap();
    assert_eq!(*t.position(), SkyboxTilePosition::Left);
    assert_eq!(t.prefix(), "");

    let t = SkyboxTile::from_file("myleft.jpg".to_owned()).unwrap();
    assert_eq!(*t.position(), SkyboxTilePosition::Left);
    assert_eq!(t.prefix(), "my");
}

#[test]
fn strips_directory_components() {
    let t = SkyboxTile::from_file("shots/2024/skyup.png".to_owned()).unwrap();
    assert_eq!(*t.position(), SkyboxTilePosition::Up);
    assert_eq!(t.prefix(), "sky");
    assert_eq!(t.path(), "shots/2024/skyup.png");
}

#[test]
fn rejects_names_without_face_suffix() {
    // not a face word before the extension
    assert!(SkyboxTile::from_file("middle.png".to_owned()).is_none());
    // the face word must stand right before the extension
    assert!(SkyboxTile::from_file("leftovers.png".to_owned()).is_none());
    // matching is case-sensitive
    assert!(SkyboxTile::from_file("roomLeft.png".to_owned()).is_none());
    // no extension, no tile
    assert!(SkyboxTile::from_file("left".to_owned()).is_none());
    // a leading dot alone marks no extension
    assert!(SkyboxTile::from_file(".png".to_owned()).is_none());
    assert!(SkyboxTile::from_file(String::new()).is_none());
}

#[test]
fn first_match_in_face_order_wins() {
    // the stem ends with "right"; "left" and the others do not match, so the
    // single matching face is chosen whatever the order of trials
    let t = SkyboxTile::from_file("bright.png".to_owned()).unwrap();
    assert_eq!(*t.position(), SkyboxTilePosition::Right);
    assert_eq!(t.prefix(), "b");

    // "downup" ends with "up" only
    let t = SkyboxTile::from_file("downup.png".to_owned()).unwrap();
    assert_eq!(*t.position(), SkyboxTilePosition::Up);
    assert_eq!(t.prefix(), "down");
}

#[test]
fn extension_is_everything_after_the_last_dot() {
    let t = SkyboxTile::from_file("a.b.left.png".to_owned()).unwrap();
    assert_eq!(*t.position(), SkyboxTilePosition::Left);
    assert_eq!(t.prefix(), "a.b.");

    // a trailing dot marks an empty extension, which still counts
    let t = SkyboxTile::from_file("Pleft.".to_owned()).unwrap();
    assert_eq!(*t.position(), SkyboxTilePosition::Left);
    assert_eq!(t.prefix(), "P");
}

#[test]
fn get_position_and_prefix_matches_from_file() {
    let (pos, prefix) = SkyboxTile::get_position_and_prefix("skybox_01aback.png").unwrap();
    assert_eq!(pos, SkyboxTilePosition::Back);
    assert_eq!(prefix, "skybox_01a".to_owned());
    assert!(SkyboxTile::get_position_and_prefix("skybox_01a.png").is_none());
}

#[test]
fn result_file_name_appends_fixed_suffix() {
    assert_eq!(
        SkyboxTile::result_file_name("skybox_01a"),
        "skybox_01askybox.png".to_owned()
    );
    assert_eq!(SkyboxTile::result_file_name(""), "skybox.png".to_owned());
}
