use smwe_editor::title_credits::{
    add_demo_step, button_summary, can_add_demo_step, demo_input_bytes, remove_demo_step,
    tile_word_fields, with_flip_x, with_flip_y, with_palette, with_priority, with_tile, DemoInput,
    TileWordFields,
};

#[test]
fn button_summary_names_held_buttons() {
    assert_eq!(button_summary(0), "-");
    assert_eq!(button_summary(0x80), "B");
    assert_eq!(button_summary(0x81), "B+Right");
    assert_eq!(button_summary(0x1A), "Start+Up+Left");
    assert_eq!(button_summary(0xFF), "B+Y+Select+Start+Up+Down+Left+Right");
}

#[test]
fn demo_input_budget_counts_two_bytes_a_step_and_the_terminator() {
    assert_eq!(demo_input_bytes(0), 1);
    assert_eq!(demo_input_bytes(5), 11);
    assert!(can_add_demo_step(0, 3));
    assert!(!can_add_demo_step(0, 2));
    assert!(can_add_demo_step(4, 11));
    assert!(!can_add_demo_step(5, 11));
    assert!(!can_add_demo_step(0, 0));
}

#[test]
fn demo_steps_are_added_while_they_fit_and_removed_from_the_end() {
    let mut inputs = vec![DemoInput { buttons: 0x80, duration: 3 }];
    assert!(add_demo_step(&mut inputs, 5));
    assert_eq!(
        inputs,
        vec![DemoInput { buttons: 0x80, duration: 3 }, DemoInput { buttons: 0, duration: 0x10 }]
    );
    assert!(!add_demo_step(&mut inputs, 6));
    assert_eq!(inputs.len(), 2);
    assert!(remove_demo_step(&mut inputs));
    assert_eq!(inputs, vec![DemoInput { buttons: 0x80, duration: 3 }]);
    assert!(remove_demo_step(&mut inputs));
    assert!(!remove_demo_step(&mut inputs));
    assert!(inputs.is_empty());
}

#[test]
fn tile_word_splits_into_its_fields() {
    assert_eq!(
        tile_word_fields(0xFC25),
        TileWordFields { tile: 0x025, palette: 7, priority: true, flip_x: true, flip_y: true }
    );
    assert_eq!(
        tile_word_fields(0x0BFF),
        TileWordFields { tile: 0x3FF, palette: 2, priority: false, flip_x: false, flip_y: false }
    );
}

#[test]
fn tile_word_setters_change_one_field() {
    assert_eq!(with_tile(0xFC25, 0x1AB), 0xFDAB);
    assert_eq!(with_tile(0x0000, 0x7FF), 0x03FF);
    assert_eq!(with_palette(0xFC25, 2), 0xE825);
    assert_eq!(with_palette(0x0000, 9), 0x0400);
    assert_eq!(with_priority(0x0000, true), 0x2000);
    assert_eq!(with_priority(0xFC25, false), 0xDC25);
    assert_eq!(with_flip_x(0x0025, true), 0x4025);
    assert_eq!(with_flip_y(0xFC25, false), 0x7C25);
    let w: u16 = 0xB5C3;
    let f = tile_word_fields(w);
    assert_eq!(with_tile(w, f.tile), w);
    assert_eq!(with_palette(w, f.palette), w);
    assert_eq!(with_priority(w, f.priority), w);
    assert_eq!(with_flip_x(w, f.flip_x), w);
    assert_eq!(with_flip_y(w, f.flip_y), w);
}
