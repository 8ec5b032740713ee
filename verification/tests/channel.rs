use multisnake::channel::{le16, ChannelState};
use multisnake::snake::Direction;

#[test]
fn le16_layout() {
    assert_eq!(le16(0, 0), 0);
    assert_eq!(le16(5, 0), 5);
    assert_eq!(le16(0, 2), 512);
    assert_eq!(le16(0x34, 0x12), 0x1234);
}

#[test]
fn command_buffer_direction_and_marked_cells() {
    // direction Up, then an info packet consumed greedily: cells 5 and 7
    let mut ch = ChannelState::new();
    ch.feed_bytes(&vec![10, 20, 0, 2, 5, 0, 7, 0]);
    assert_eq!(ch.direction, Direction::UP);
    assert_eq!(ch.marked_cells, vec![5u16, 7]);
}

#[test]
fn direction_tags() {
    let mut ch = ChannelState::new();
    ch.feed_bytes(&vec![11]);
    assert_eq!(ch.direction, Direction::DOWN);
    ch.feed_bytes(&vec![12]);
    assert_eq!(ch.direction, Direction::LEFT);
    ch.feed_bytes(&vec![13]);
    assert_eq!(ch.direction, Direction::RIGHT);
    ch.feed_bytes(&vec![10]);
    assert_eq!(ch.direction, Direction::UP);
}

#[test]
fn invalid_tag_is_skipped() {
    let mut ch = ChannelState::new();
    ch.feed_bytes(&vec![99, 11]);
    assert_eq!(ch.direction, Direction::DOWN);
}

#[test]
fn zero_sentinel_stops_parsing() {
    let mut ch = ChannelState::new();
    ch.feed_bytes(&vec![10, 0, 11]);
    // the record after the sentinel is never read
    assert_eq!(ch.direction, Direction::UP);
}

#[test]
fn info_packet_exact_count_then_more_records() {
    let mut ch = ChannelState::new();
    ch.feed_bytes(&vec![20, 1, 0, 9, 0, 12]);
    assert_eq!(ch.marked_cells, vec![9u16]);
    assert_eq!(ch.direction, Direction::LEFT);
}

#[test]
fn info_packet_replaces_previous_cells() {
    let mut ch = ChannelState::new();
    ch.feed_bytes(&vec![20, 2, 0, 1, 0, 2, 0]);
    assert_eq!(ch.marked_cells, vec![1u16, 2]);
    ch.feed_bytes(&vec![20, 1, 0, 3, 0]);
    assert_eq!(ch.marked_cells, vec![3u16]);
}

#[test]
fn short_info_packet_is_invalid() {
    // tag 20 with fewer than two bytes after it cannot carry a count
    let mut ch = ChannelState::new();
    ch.feed_bytes(&vec![20, 1]);
    assert_eq!(ch.direction, Direction::RIGHT);
    assert!(ch.marked_cells.is_empty());
}

#[test]
fn missed_inputs_counted_and_direction_kept() {
    let mut ch = ChannelState::new();
    ch.feed_bytes(&vec![11]);
    ch.note_missed();
    ch.note_missed();
    assert_eq!(ch.missed_inputs, 2);
    // a missed poll never disturbs the last direction
    assert_eq!(ch.next_direction(), Direction::DOWN);
}

#[test]
fn channel_identity_and_info() {
    let mut ch = ChannelState::new();
    assert_eq!(ch.get_name(), "Unknown Ai");
    ch.set_name("remote one".to_string());
    assert_eq!(ch.get_name(), "remote one");
    let info = ch.get_info().unwrap();
    assert!(info.marked_cells.is_empty());
    assert_eq!(info.info_lines.len(), 2);
    assert_eq!(info.info_lines[1], "Current Direction: Right");
    assert_eq!(info.info_lines[0], "Missed Inputs: 0");
}

#[test]
fn direction_names_and_tags() {
    assert_eq!(Direction::UP.to_string(), "Up");
    assert_eq!(Direction::DOWN.to_string(), "Down");
    assert_eq!(Direction::LEFT.to_string(), "Left");
    assert_eq!(Direction::RIGHT.to_string(), "Right");
    assert_eq!(Direction::NONE.to_string(), "None");
    assert_eq!(Direction::UP.to_int(), Some(10));
    assert_eq!(Direction::DOWN.to_int(), Some(11));
    assert_eq!(Direction::LEFT.to_int(), Some(12));
    assert_eq!(Direction::RIGHT.to_int(), Some(13));
    assert_eq!(Direction::NONE.to_int(), None);
}
