use kademlia::key::{Distance, Key, ID_BITS};
use kademlia::dist;

fn key_of(first: u8, last: u8) -> Key {
    let mut b = [0u8; 20];
    b[0] = first;
    b[19] = last;
    Key::from_bytes(b)
}

#[test]
fn distance_is_bytewise_xor() {
    let a = key_of(0b1010_0000, 0x0f);
    let b = key_of(0b0110_0000, 0xff);
    let d = Distance::dist(a, b);
    assert_eq!(d.0[0], 0b1100_0000);
    assert_eq!(d.0[19], 0xf0);
    assert_eq!(d.0[5], 0);
}

#[test]
fn distance_symmetric_example() {
    let a = key_of(0x12, 0x34);
    let b = key_of(0xab, 0xcd);
    assert_eq!(Distance::dist(a, b), Distance::dist(b, a));
    assert_eq!(dist(a, b), Distance::dist(a, b));
}

#[test]
fn distance_triangle_example() {
    let a = key_of(0x80, 0x01);
    let b = key_of(0x00, 0x00);
    let c = key_of(0x80, 0x02);
    let value = |d: Distance| -> u128 {
        let mut v: u128 = 0;
        for x in d.0.iter().skip(4) {
            v = v * 256 + *x as u128;
        }
        v
    };
    let ac = value(Distance::dist(a, c));
    let ab = value(Distance::dist(a, b));
    let bc = value(Distance::dist(b, c));
    assert!(ac <= ab + bc);
    assert_eq!(ac, 3);
}

#[test]
fn self_distance_is_last_bucket() {
    let a = key_of(0x5a, 0xa5);
    assert_eq!(Distance::dist(a, a).zeroes_in_prefix(), ID_BITS - 1);
    assert_eq!(ID_BITS - 1, 159);
}

#[test]
fn prefix_counts_leading_zero_bits() {
    assert_eq!(Distance::dist(key_of(0x80, 0), key_of(0, 0)).zeroes_in_prefix(), 0);
    assert_eq!(Distance::dist(key_of(0x01, 0), key_of(0, 0)).zeroes_in_prefix(), 7);
    let mut b = [0u8; 20];
    b[1] = 0x20;
    assert_eq!(Distance(b).zeroes_in_prefix(), 10);
    assert_eq!(Distance::dist(key_of(0, 0x02), key_of(0, 0)).zeroes_in_prefix(), 158);
    assert_eq!(Distance::dist(key_of(0, 0x01), key_of(0, 0)).zeroes_in_prefix(), 159);
}

#[test]
fn closer_than_reads_big_endian() {
    let near = Distance::dist(key_of(0, 0xff), key_of(0, 0));
    let far = Distance::dist(key_of(0x01, 0), key_of(0, 0));
    assert!(near.closer_than(&far));
    assert!(!far.closer_than(&near));
    assert!(!near.closer_than(&near));
}

#[test]
fn random_keys_differ() {
    let a = Key::random().unwrap();
    let b = Key::random().unwrap();
    let c = Key::random().unwrap();
    assert!(a != b || b != c);
}

#[test]
fn text_keys_hold_length_then_bytes() {
    let k = Key::from_text(b"abc").unwrap();
    assert_eq!(k.0[0], 3);
    assert_eq!(&k.0[1..4], b"abc");
    assert!(k.0[4..].iter().all(|b| *b == 0));
    assert!(Key::from_text(b"a").unwrap() != Key::from_text(b"a\0").unwrap());
    assert!(Key::from_text(&[7u8; 19]).is_some());
    assert!(Key::from_text(&[7u8; 20]).is_none());
    assert!(Key::from_text(b"").unwrap() == Key::from_bytes([0u8; 20]));
}
