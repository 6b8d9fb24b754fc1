use smwe_editor::level::{read_u16, read_u24, smc_header_offset, SpawnPos};
use smwe_editor::undo::{Undo, UndoableData};

#[test]
fn spawn_pos_bytes_round_trip() {
    let p = SpawnPos { x: 5, y: 18 };
    let q = SpawnPos::from_bytes(p.to_bytes());
    assert_eq!((q.x, q.y), (5, 18));
}

#[test]
fn spawn_pos_from_bytes_short_or_empty_decodes_zero() {
    let q = SpawnPos::from_bytes(vec![]);
    assert_eq!((q.x, q.y), (0, 0));
    let q = SpawnPos::from_bytes(vec![1, 2, 3]);
    assert_eq!((q.x, q.y), (0, 0));
    let q = SpawnPos::from_bytes(vec![9; 7]);
    assert_eq!((q.x, q.y), (0x0909_0909, 0));
}

#[test]
fn spawn_drag_undoes_in_one_step() {
    let mut spawn = UndoableData::new(SpawnPos { x: 1, y: 11 });
    spawn.write(|p| {
        p.x = 40;
        p.y = 3;
    });
    assert_eq!(spawn.read(|p| (p.x, p.y)), (40, 3));
    spawn.undo();
    assert_eq!(spawn.read(|p| (p.x, p.y)), (1, 11));
    spawn.redo();
    assert_eq!(spawn.read(|p| (p.x, p.y)), (40, 3));
    assert_eq!(SpawnPos { x: 0, y: 0 }.size_bytes(), 8);
}

#[test]
fn rom_reads_are_little_endian_and_bounded() {
    let rom = vec![0x34, 0x12, 0x56, 0x78];
    assert_eq!(read_u16(&rom, 0), Some(0x1234));
    assert_eq!(read_u16(&rom, 3), None);
    assert_eq!(read_u24(&rom, 1), Some(0x78_5612));
    assert_eq!(read_u24(&rom, 2), None);
}

#[test]
fn copier_header_detected_by_length() {
    assert_eq!(smc_header_offset(&vec![0u8; 0x80200]), 0x200);
    assert_eq!(smc_header_offset(&vec![0u8; 0x80000]), 0);
    assert_eq!(smc_header_offset(&vec![0u8; 0x200]), 0x200);
}
