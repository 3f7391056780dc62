use orderbook_rust::extract::be16;
use orderbook_rust::extract::frame_keep;
use orderbook_rust::extract::is_order_tag;

#[test]
fn test_order_tags() {
    for tag in [b'A', b'F', b'E', b'C', b'X', b'D', b'U'] {
        assert!(is_order_tag(tag));
    }
    for tag in [b'R', b'S', b'P', b'Q', 0u8, 255u8] {
        assert!(!is_order_tag(tag));
    }
}

#[test]
fn test_be16() {
    assert_eq!(be16(0, 0), 0);
    assert_eq!(be16(0, 7), 7);
    assert_eq!(be16(1, 0), 256);
    assert_eq!(be16(0x12, 0x34), 0x1234);
    assert_eq!(be16(0xff, 0xff), 65535);
}

#[test]
fn test_frame_keep() {
    // an add-order frame for locate 7
    let frame = vec![b'A', 0, 7, 1, 2, 3];
    assert!(frame_keep(&frame, 7));
    // wrong instrument
    assert!(!frame_keep(&frame, 8));
    // not an order message
    let directory = vec![b'R', 0, 7, 1, 2, 3];
    assert!(!frame_keep(&directory, 7));
    // too short to carry a tag and a locate code
    assert!(!frame_keep(&vec![b'A', 0], 0));
    assert!(!frame_keep(&Vec::new(), 0));
}
