use rustic_raycaster::loader::{load_map, Direction, MapCell, MapError, Spawn};

#[test]
fn drawing_rows_become_cells_and_spawn() {
    let rows: Vec<Vec<u8>> = vec![
        b" 111".to_vec(),
        b"1101".to_vec(),
        b"12N1".to_vec(),
        b"1".to_vec(),
    ];
    let (w, h, data, spawn) = load_map(&rows).unwrap();
    assert_eq!((w, h), (4, 4));
    assert_eq!(spawn, Spawn { direction: Direction::N, x: 2, y: 2 });
    let mut expected = vec![MapCell::Wall; 16];
    expected[1 * 4 + 2] = MapCell::Space;
    expected[2 * 4 + 1] = MapCell::Item;
    expected[2 * 4 + 2] = MapCell::Space;
    assert_eq!(data, expected);
}

#[test]
fn bad_drawings_are_rejected() {
    let empty: Vec<Vec<u8>> = vec![];
    assert!(matches!(load_map(&empty), Err(MapError::EmptyDrawing)));
    let blank: Vec<Vec<u8>> = vec![vec![], vec![]];
    assert!(matches!(load_map(&blank), Err(MapError::EmptyDrawing)));
    let bad: Vec<Vec<u8>> = vec![b"1x1".to_vec()];
    assert!(matches!(load_map(&bad), Err(MapError::InvalidChar)));
    let lonely: Vec<Vec<u8>> = vec![b"111".to_vec()];
    assert!(matches!(load_map(&lonely), Err(MapError::NoSpawn)));
    let crowded: Vec<Vec<u8>> = vec![b"1N1S".to_vec()];
    assert!(matches!(load_map(&crowded), Err(MapError::DuplicateSpawn)));
}
