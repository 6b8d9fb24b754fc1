use smwe_editor::sprite_layer::{oam_pixel_bounds, OamTile};

#[test]
fn bounds_cover_every_oam_tile() {
    assert_eq!(oam_pixel_bounds(&vec![]), None);
    let tiles = vec![
        OamTile { dx: 0, dy: -16, is_16x16: true },
        OamTile { dx: -4, dy: 0, is_16x16: false },
        OamTile { dx: 8, dy: 4, is_16x16: false },
    ];
    assert_eq!(oam_pixel_bounds(&tiles), Some((-4, -16, 16, 12)));
    assert_eq!(oam_pixel_bounds(&vec![OamTile { dx: 2, dy: 3, is_16x16: false }]), Some((2, 3, 10, 11)));
}
