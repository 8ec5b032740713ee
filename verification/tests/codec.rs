use multisnake::object::Tile;
use multisnake::snake::{SnakeData, SnakeRefData, SnakeResponseData};
use multisnake::wire::{winner_packet, DecodeError};

#[test]
fn tile_id_round_trip_all_variants() {
    let tiles = vec![
        Tile::EMPTY,
        Tile::FOOD,
        Tile::DeadSnake,
        Tile::Snake { id: 0 },
        Tile::Snake { id: 3 },
        Tile::Snake { id: 32757 },
    ];
    for t in tiles {
        let id = t.get_tile_id();
        let back = Tile::from_tile_id(id as i16);
        assert_eq!(back, t);
    }
}

#[test]
fn tile_id_encoding_convention() {
    assert_eq!(Tile::EMPTY.get_tile_id(), 0);
    assert_eq!(Tile::FOOD.get_tile_id(), -1);
    assert_eq!(Tile::DeadSnake.get_tile_id(), -2);
    assert_eq!(Tile::Snake { id: 0 }.get_tile_id(), 10);
    assert_eq!(Tile::Snake { id: 7 }.get_tile_id(), 17);
}

#[test]
fn tile_id_decodes_everything() {
    assert_eq!(Tile::from_tile_id(0), Tile::EMPTY);
    assert_eq!(Tile::from_tile_id(-1), Tile::FOOD);
    assert_eq!(Tile::from_tile_id(-2), Tile::DeadSnake);
    assert_eq!(Tile::from_tile_id(10), Tile::Snake { id: 0 });
    // values outside the convention still decode, shifted by 10
    assert_eq!(Tile::from_tile_id(5), Tile::Snake { id: -5 });
    assert_eq!(Tile::from_tile_id(-7), Tile::Snake { id: -17 });
}

#[test]
fn encode_exact_bytes_empty_roster() {
    let grid = vec![Tile::EMPTY];
    let data = SnakeData { height: 1, width: 1, grid: &grid, snakes: Vec::new() };
    let bytes = data.encode(3);
    assert_eq!(bytes, vec![0, 1, 0, 1, 0, 3, 0, 0, 0, 0, 0]);
}

#[test]
fn decode_exact_bytes_empty_roster() {
    let bytes = vec![0u8, 1, 0, 1, 0, 3, 0, 0, 0, 0, 0];
    let d = SnakeResponseData::decode(&bytes).unwrap();
    assert_eq!(d.height, 1);
    assert_eq!(d.width, 1);
    assert_eq!(d.my_snake_id, 3);
    assert_eq!(d.grid, vec![Tile::EMPTY]);
    assert!(d.snakes.is_empty());
}

fn sample_snapshot(grid: &Vec<Tile>) -> SnakeData<'_> {
    SnakeData {
        height: 2,
        width: 3,
        grid,
        snakes: vec![
            SnakeRefData {
                id: 0,
                name: "ana".to_string(),
                alive: true,
                size: 2,
                tiles: vec![4, 3],
                color: (10, 20, 30),
            },
            SnakeRefData {
                id: 1,
                name: "b\u{e9}la".to_string(), // non-ASCII name on the wire
                alive: false,
                size: 1,
                tiles: vec![],
                color: (1, 2, 3),
            },
        ],
    }
}

#[test]
fn snapshot_round_trip() {
    let grid = vec![
        Tile::EMPTY,
        Tile::FOOD,
        Tile::DeadSnake,
        Tile::Snake { id: 1 },
        Tile::Snake { id: 0 },
        Tile::EMPTY,
    ];
    let data = sample_snapshot(&grid);
    let bytes = data.encode(1);
    let d = SnakeResponseData::decode(&bytes).unwrap();
    assert_eq!(d.height, 2);
    assert_eq!(d.width, 3);
    assert_eq!(d.my_snake_id, 1);
    assert_eq!(d.grid, grid);
    assert_eq!(d.snakes.len(), 2);
    assert_eq!(d.snakes[0].id, 0);
    assert_eq!(d.snakes[0].name, "ana");
    assert!(d.snakes[0].alive);
    assert_eq!(d.snakes[0].size, 2);
    assert_eq!(d.snakes[0].tiles, vec![4u16, 3]);
    assert_eq!(d.snakes[1].id, 1);
    assert_eq!(d.snakes[1].name, "b\u{e9}la");
    assert!(!d.snakes[1].alive);
    assert_eq!(d.snakes[1].size, 1);
    assert!(d.snakes[1].tiles.is_empty());
}

#[test]
fn round_trip_ignores_trailing_bytes() {
    let grid = vec![Tile::EMPTY];
    let data = SnakeData { height: 1, width: 1, grid: &grid, snakes: Vec::new() };
    let mut bytes = data.encode(0);
    bytes.push(99);
    bytes.push(100);
    let d = SnakeResponseData::decode(&bytes).unwrap();
    assert_eq!(d.my_snake_id, 0);
}

#[test]
fn decode_rejects_truncated_buffer() {
    assert_eq!(SnakeResponseData::decode(&[]).err(), Some(DecodeError::Truncated));
    assert_eq!(SnakeResponseData::decode(&[0]).err(), Some(DecodeError::Truncated));
    assert_eq!(SnakeResponseData::decode(&[0, 1, 0, 1]).err(), Some(DecodeError::Truncated));
    // header promises a 1x1 grid but no tile bytes follow
    assert_eq!(
        SnakeResponseData::decode(&[0, 1, 0, 1, 0, 0, 0]).err(),
        Some(DecodeError::Truncated)
    );
}

#[test]
fn decode_rejects_bad_alive_flag() {
    // 0x0 grid, one roster entry: id 0, empty name, size 1, no cells, flag 9
    let bytes = vec![0u8, 0, 0, 0, 0, 0, 0, 1, 0, 0, 0, 0, 0, 1, 0, 0, 0, 9];
    assert_eq!(SnakeResponseData::decode(&bytes).err(), Some(DecodeError::InvalidAliveFlag));
    // the flag byte missing entirely is the same rejection
    let bytes = vec![0u8, 0, 0, 0, 0, 0, 0, 1, 0, 0, 0, 0, 0, 1, 0, 0, 0];
    assert_eq!(SnakeResponseData::decode(&bytes).err(), Some(DecodeError::InvalidAliveFlag));
}

#[test]
fn decode_rejects_invalid_utf8_name() {
    // 0x0 grid, one roster entry whose 1-byte name is 0xFF
    let bytes = vec![0u8, 0, 0, 0, 0, 0, 0, 1, 0, 0, 0, 1, 0, 0xFF, 1, 0, 0, 0, 1];
    assert_eq!(SnakeResponseData::decode(&bytes).err(), Some(DecodeError::InvalidName));
}

#[test]
fn decode_rejects_truncated_name() {
    // name length says 5 bytes but only 2 follow
    let bytes = vec![0u8, 0, 0, 0, 0, 0, 0, 1, 0, 0, 0, 5, 0, 97, 98];
    assert_eq!(SnakeResponseData::decode(&bytes).err(), Some(DecodeError::Truncated));
}

#[test]
fn winner_packet_layout() {
    assert_eq!(winner_packet(7), vec![2, 7, 0, 0, 0]);
    assert_eq!(winner_packet(0x01020304), vec![2, 4, 3, 2, 1]);
    assert_eq!(winner_packet(-1), vec![2, 255, 255, 255, 255]);
}
