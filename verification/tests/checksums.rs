use rusty_flac::crc::{build_crc16_table, build_crc8_table, crc16, crc8};
use rusty_flac::md5::Md5;

/// Bitwise reference implementations.
fn crc8_ref(data: &[u8]) -> u8 {
    let mut crc = 0u8;
    for &b in data {
        crc ^= b;
        for _ in 0..8 {
            crc = if crc & 0x80 != 0 {
                (crc << 1) ^ 0x07
            } else {
                crc << 1
            };
        }
    }
    crc
}

fn crc16_ref(data: &[u8]) -> u16 {
    let mut crc = 0u16;
    for &b in data {
        crc ^= (b as u16) << 8;
        for _ in 0..8 {
            crc = if crc & 0x8000 != 0 {
                (crc << 1) ^ 0x8005
            } else {
                crc << 1
            };
        }
    }
    crc
}

#[test]
fn tables_match_bitwise_reference() {
    let data: Vec<u8> = (0..4096u32).map(|i| (i * 31 + 7) as u8).collect();
    for len in [0, 1, 2, 63, 64, 65, 4096] {
        assert_eq!(crc8(&data[..len]), crc8_ref(&data[..len]), "crc8 len={len}");
        assert_eq!(
            crc16(&data[..len]),
            crc16_ref(&data[..len]),
            "crc16 len={len}"
        );
    }
}

#[test]
fn checksums_of_the_check_string() {
    assert_eq!(crc8(b"123456789"), 0xF4);
    assert_eq!(crc16(b"123456789"), 0xFEE8);
    assert_eq!(build_crc8_table()[1], 0x07);
    assert_eq!(build_crc16_table()[1], 0x8005);
}

#[test]
fn a_checked_message_leaves_no_remainder() {
    let mut message = b"123456789".to_vec();
    let check = crc16(&message);
    message.extend_from_slice(&check.to_be_bytes());
    assert_eq!(crc16(&message), 0);
    for i in 0..message.len() {
        for flip in 1..=255u8 {
            let mut damaged = message.clone();
            damaged[i] ^= flip;
            assert_ne!(crc16(&damaged), 0, "byte {i} changed by {flip}");
        }
    }
}

fn hex(digest: [u8; 16]) -> String {
    let mut s = String::new();
    for b in digest {
        s.push_str(&format!("{b:02x}"));
    }
    s
}

fn md5(data: &[u8]) -> String {
    let mut h = Md5::new();
    h.update(data);
    hex(h.finalize())
}

#[test]
fn md5_of_known_messages() {
    assert_eq!(md5(b""), "d41d8cd98f00b204e9800998ecf8427e");
    assert_eq!(md5(b"a"), "0cc175b9c0f1b6a831c399e269772661");
    assert_eq!(md5(b"abc"), "900150983cd24fb0d6963f7d28e17f72");
    assert_eq!(
        md5(b"message digest"),
        "f96b697d7cb7938d525a2f31aaf161d0"
    );
    assert_eq!(
        md5(b"abcdefghijklmnopqrstuvwxyz"),
        "c3fcd3d76192e4007dfb496cca67e13b"
    );
    assert_eq!(
        md5(b"12345678901234567890123456789012345678901234567890123456789012345678901234567890"),
        "57edf4a22be3c955ac49da2e2107b67a"
    );
}

#[test]
fn md5_does_not_depend_on_the_chunks() {
    let data: Vec<u8> = (0..1000u32).map(|i| (i * 7 + 3) as u8).collect();
    let whole = md5(&data);
    for cut in [1usize, 55, 56, 63, 64, 65, 999] {
        let mut h = Md5::new();
        h.update(&data[..cut]);
        h.update(&data[cut..]);
        assert_eq!(hex(h.finalize()), whole, "cut={cut}");
    }
}
