use lsb_stego::grid::PixelGrid;
use lsb_stego::stego::hide_lsb;
use lsb_stego::stego::reveal_lsb;
use lsb_stego::stego::MARKER_LEN;

/// The marker bytes appended after every hidden message.
fn marker_bytes() -> Vec<u8> {
    vec![255, 255, 0, 0, 255, 0]
}

/// A grid whose channel values follow a fixed, non-trivial pattern.
fn patterned_grid(width: usize, height: usize) -> PixelGrid {
    let n = width * height * 3;
    let mut channels: Vec<u8> = Vec::new();
    for i in 0..n {
        channels.push((i * 37 + 11) as u8);
    }
    PixelGrid::new(width, height, channels).unwrap()
}

#[test]
fn test_round_trip() {
    let mut grid = patterned_grid(10, 10);
    let message: Vec<u8> = b"a hidden message".to_vec();
    assert!(grid.fits(message.len()));
    hide_lsb(&mut grid, &message);
    assert_eq!(reveal_lsb(&grid), message);
}

#[test]
fn test_empty_message_reveals_empty() {
    let mut grid = patterned_grid(8, 8);
    hide_lsb(&mut grid, &Vec::new());
    assert_eq!(reveal_lsb(&grid), Vec::<u8>::new());
}

#[test]
fn test_bit_order_on_first_channels() {
    // 178 == 0b10110010: least-significant bit first, the stream starts
    // 0, 1, 0, 0, 1, 1, 0, 1.
    let mut grid = patterned_grid(5, 5);
    hide_lsb(&mut grid, &vec![178u8]);
    let lsbs: Vec<u8> = grid.channel_values()[..8].iter().map(|c| c & 1).collect();
    assert_eq!(lsbs, vec![0, 1, 0, 0, 1, 1, 0, 1]);
}

#[test]
fn test_tail_channels_unchanged() {
    let before = patterned_grid(10, 10);
    let mut grid = patterned_grid(10, 10);
    let message: Vec<u8> = b"abc".to_vec();
    hide_lsb(&mut grid, &message);
    let written_bits = 8 * (message.len() + MARKER_LEN);
    assert!(written_bits < grid.capacity());
    for i in written_bits..grid.capacity() {
        assert_eq!(grid.channel_values()[i], before.channel_values()[i]);
    }
}

#[test]
fn test_exact_capacity() {
    // 4 x 8 pixels give 96 channels; a 6-byte message plus the 6-byte marker
    // is exactly 96 bits: every channel is written, and the round trip holds.
    let before = patterned_grid(4, 8);
    let mut grid = patterned_grid(4, 8);
    let message: Vec<u8> = b"sixby!".to_vec();
    assert!(grid.fits(message.len()));
    assert_eq!(8 * (message.len() + MARKER_LEN), grid.capacity());
    hide_lsb(&mut grid, &message);
    for i in 0..grid.capacity() {
        let old = before.channel_values()[i];
        let new = grid.channel_values()[i];
        assert_eq!(new & 0xfe, old & 0xfe);
    }
    assert_eq!(reveal_lsb(&grid), message);
}

#[test]
fn test_over_capacity_truncates_silently() {
    // One message byte more than fits in 96 channels: hiding must neither
    // panic nor write past the last channel, and the revealed bytes are the
    // message followed by the five marker bytes that still fit.
    let mut grid = patterned_grid(4, 8);
    let message: Vec<u8> = b"toolong".to_vec();
    assert!(!grid.fits(message.len()));
    hide_lsb(&mut grid, &message);
    assert_eq!(grid.capacity(), 96);
    let mut expected = message.clone();
    expected.extend_from_slice(&marker_bytes()[..5]);
    assert_eq!(reveal_lsb(&grid), expected);
}

#[test]
fn test_false_positive_marker_cuts_message() {
    // A message that itself ends with the marker bytes is cut short at that
    // first, false match: only what stands before the marker comes back.
    let mut grid = patterned_grid(10, 10);
    let mut message: Vec<u8> = b"hi".to_vec();
    message.extend_from_slice(&marker_bytes());
    message.extend_from_slice(b"lost");
    hide_lsb(&mut grid, &message);
    assert_eq!(reveal_lsb(&grid), b"hi".to_vec());
}

#[test]
fn test_reveal_twice_identical() {
    let mut grid = patterned_grid(7, 5);
    hide_lsb(&mut grid, &b"stable".to_vec());
    let first = reveal_lsb(&grid);
    let second = reveal_lsb(&grid);
    assert_eq!(first, second);
}

#[test]
fn test_reveal_without_marker_returns_all_bytes() {
    // Channels all zero: the assembled bytes are all zero, the marker never
    // shows, and every complete byte comes back.
    let grid = PixelGrid::new(4, 4, vec![0u8; 48]).unwrap();
    assert_eq!(reveal_lsb(&grid), vec![0u8; 6]);
}

#[test]
fn test_marker_present_status() {
    let mut grid = patterned_grid(10, 10);
    hide_lsb(&mut grid, &b"flagged".to_vec());
    assert!(lsb_stego::stego::marker_present(&grid));

    // Without a hidden message the marker bytes never show.
    let fresh = PixelGrid::new(4, 4, vec![0u8; 48]).unwrap();
    assert!(!lsb_stego::stego::marker_present(&fresh));

    // A truncated message loses part of its marker, and the status says so.
    let mut small = patterned_grid(4, 8);
    hide_lsb(&mut small, &b"toolong".to_vec());
    assert!(!lsb_stego::stego::marker_present(&small));
}

#[test]
fn test_grid_new_checks_channel_count() {
    assert!(PixelGrid::new(2, 2, vec![0u8; 12]).is_some());
    assert!(PixelGrid::new(2, 2, vec![0u8; 11]).is_none());
    assert!(PixelGrid::new(0, 3, Vec::new()).is_some());
}

#[test]
fn test_fits_boundary() {
    let grid = patterned_grid(4, 8);
    assert!(grid.fits(6));
    assert!(!grid.fits(7));
    let empty = PixelGrid::new(0, 0, Vec::new()).unwrap();
    assert!(!empty.fits(0));
}

#[test]
fn test_grid_accessors() {
    let grid = patterned_grid(3, 2);
    assert_eq!(grid.width(), 3);
    assert_eq!(grid.height(), 2);
    assert_eq!(grid.capacity(), 18);
    assert_eq!(grid.get_channel(0), grid.channel_values()[0]);
}

#[test]
fn test_hide_into_empty_grid_is_noop() {
    let mut grid = PixelGrid::new(0, 0, Vec::new()).unwrap();
    hide_lsb(&mut grid, &b"anything".to_vec());
    assert_eq!(reveal_lsb(&grid), Vec::<u8>::new());
}
