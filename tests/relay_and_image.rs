use framelink::image::ImageBuffer;
use framelink::relay::{Endpoint, Relay};

#[test]
fn test_image_creation() {
    let f_data = vec![1; 100 * 100];
    let buffer = ImageBuffer::create_image_buffer(100, 100, f_data);
    assert_eq!(buffer.pixel_count(), 10000);
    assert_eq!(buffer.width(), 100);
    assert_eq!(buffer.height(), 100);
    assert_eq!(buffer.data().len(), 10000);
}

fn addr(last: u8, port: u16) -> Endpoint {
    Endpoint { ip: u128::from(u32::from_be_bytes([127, 0, 0, last])), is_v6: false, port }
}

#[test]
fn relay_learns_remote_from_first_datagram() {
    let a = addr(1, 40000);
    let mut relay = Relay::new(None);
    assert_eq!(relay.remote(), None);
    let got = relay.on_datagram(a, vec![1, 2, 3]);
    assert_eq!(got.payload, vec![1, 2, 3]);
    assert!(got.established);
    assert!(!got.foreign_source);
    assert_eq!(relay.remote(), Some(a));
    let next = relay.on_datagram(a, vec![4]);
    assert_eq!(next.payload, vec![4]);
    assert!(!next.established);
    assert!(!next.foreign_source);
    assert_eq!(relay.remote(), Some(a));
    let other = relay.on_datagram(addr(9, 1234), vec![5]);
    assert_eq!(other.payload, vec![5]);
    assert!(other.foreign_source);
    assert_eq!(relay.remote(), Some(a));
}

#[test]
fn relay_flags_other_source_but_keeps_remote() {
    let a = addr(1, 40000);
    let b = addr(2, 40000);
    let mut relay = Relay::new(Some(a));
    let got = relay.on_datagram(b, vec![9, 9]);
    assert_eq!(got.payload, vec![9, 9]);
    assert!(got.foreign_source);
    assert!(!got.established);
    assert_eq!(relay.remote(), Some(a));
}
