use smwe_editor::exgfx::{exgfx_users, levels_using, lowest_free_exgfx_index};

#[test]
fn the_lowest_unused_index_is_picked() {
    assert_eq!(lowest_free_exgfx_index(&vec![], 0x80, 0xFFF), 0x80);
    assert_eq!(lowest_free_exgfx_index(&vec![0x80, 0x81, 0x83], 0x80, 0xFFF), 0x82);
    assert_eq!(lowest_free_exgfx_index(&vec![0x81, 0x80], 0x80, 0x81), 0x81);
    assert_eq!(lowest_free_exgfx_index(&vec![5], 0x80, 0x82), 0x80);
}

#[test]
fn exgfx_users_lists_levels_by_file_ascending() {
    let levels = vec![
        (0x105u16, vec![0x80u16, 0x81]),
        (0x01, vec![0x81]),
        (0x0C7, vec![0x7F, 0x80, 0x80]),
        (0x02, vec![]),
    ];
    assert_eq!(levels_using(0x80, &levels), vec![0x0C7, 0x105]);
    assert_eq!(levels_using(0x90, &levels), Vec::<u16>::new());
    assert_eq!(
        exgfx_users(&vec![0x80, 0x81, 0x82], &levels),
        vec![(0x80, vec![0x0C7, 0x105]), (0x81, vec![0x01, 0x105]), (0x82, vec![])]
    );
    assert_eq!(exgfx_users(&vec![], &levels), vec![]);
}
