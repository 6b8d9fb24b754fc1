use smwe_editor::level::entrance_to_tiles;
use smwe_editor::level_header::{primary_header_bytes, secondary_header_bytes, PrimaryHeaderFields, SecondaryHeaderFields};

#[test]
fn primary_header_packs_each_field_in_place() {
    let p = PrimaryHeaderFields {
        palette_bg: 3,
        level_length: 0x0D,
        back_area_color: 2,
        level_mode: 0x0C,
        layer3_priority: true,
        music: 5,
        sprite_gfx: 0x1A,
        timer: 2,
        palette_sprite: 1,
        palette_fg: 6,
        item_memory: 1,
        vertical_scroll: 2,
        fg_bg_gfx: 0x0E,
    };
    assert_eq!(primary_header_bytes(&p), [0x6D, 0x4C, 0xDA, 0x8E, 0x6E]);
    assert_eq!(primary_header_bytes(&PrimaryHeaderFields::default()), [0; 5]);
}

#[test]
fn secondary_header_holds_the_entrance() {
    let p = SecondaryHeaderFields {
        layer2_scroll: 1,
        layer3: 2,
        main_entrance_action: 3,
        midway_entrance_screen: 4,
        fg_initial_pos: 1,
        bg_initial_pos: 2,
        no_yoshi_level: true,
        unknown_vertical_pos_level: false,
        is_vertical: false,
    };
    // Spawn at tile (0x25, 22): screen 2, x 5 -> half 2, y 22 -> half 11.
    assert_eq!(secondary_header_bytes(&p, 0x25, 22), [0x1B, 0x9A, 0x46, 0x82]);
    let b = secondary_header_bytes(&p, 0x25, 22);
    assert_eq!(entrance_to_tiles(b[3] & 0x1F, b[1] & 7, b[0] & 0x0F, false), (0x24, 22));
    // Far right spawns keep screen 31.
    assert_eq!(secondary_header_bytes(&p, 0x300, 0)[3] & 0x1F, 31);
}

#[test]
fn vertical_levels_count_two_screens_per_row() {
    let p = SecondaryHeaderFields { is_vertical: true, ..SecondaryHeaderFields::default() };
    let b = secondary_header_bytes(&p, 20, 70);
    // Row of screens 2, right column: screen 5; x 4 -> half 2; y 6 -> half 3.
    assert_eq!(b, [0x03, 0x02, 0x00, 0x25]);
    assert_eq!(entrance_to_tiles(b[3] & 0x1F, b[1] & 7, b[0] & 0x0F, true), (20, 70));
}
