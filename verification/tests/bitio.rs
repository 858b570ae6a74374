use rusty_flac::bitio::{BitReader, BitWriter};

#[test]
fn writer_matches_bit_by_bit_reference() {
    // Reference: naive single-bit writer.
    let mut naive: Vec<u8> = Vec::new();
    let mut cur = 0u8;
    let mut nb = 0u8;
    let mut push_bit = |bit: u8, naive: &mut Vec<u8>| {
        cur = (cur << 1) | bit;
        nb += 1;
        if nb == 8 {
            naive.push(cur);
            cur = 0;
            nb = 0;
        }
    };

    let mut bw = BitWriter::new();
    let vals: &[(u64, u32)] = &[
        (0x3FFE, 14),
        (0, 1),
        (5, 3),
        (0xABCD, 16),
        (1, 1),
        (0x12345678, 32),
        (0x7F, 7),
        (0, 2),
    ];
    for &(v, n) in vals {
        bw.write_bits(v, n);
        for i in (0..n).rev() {
            push_bit(((v >> i) & 1) as u8, &mut naive);
        }
    }
    bw.write_zeros(77);
    for _ in 0..77 {
        push_bit(0, &mut naive);
    }
    bw.write_bits(1, 1);
    push_bit(1, &mut naive);

    let got = bw.into_bytes();
    // Pad naive to byte.
    if nb > 0 {
        naive.push(cur << (8 - nb));
    }
    assert_eq!(got, naive);
}

#[test]
fn reader_round_trips_writer() {
    let mut bw = BitWriter::new();
    bw.write_bits(0x3FFE, 14);
    bw.write_signed(-5, 6);
    bw.write_zeros(40);
    bw.write_bits(1, 1);
    bw.write_bits(0x155, 9);
    bw.write_signed(-1, 17);
    let bytes = bw.into_bytes();

    let mut br = BitReader::new(&bytes);
    assert_eq!(br.read_bits(14), Some(0x3FFE));
    assert_eq!(br.read_signed(6), Some(-5));
    assert_eq!(br.read_unary(), Some(40));
    assert_eq!(br.read_bits(9), Some(0x155));
    assert_eq!(br.read_signed(17), Some(-1));
}

#[test]
fn reader_none_past_end() {
    let bytes = [0xFFu8];
    let mut br = BitReader::new(&bytes);
    assert_eq!(br.read_bits(8), Some(0xFF));
    assert_eq!(br.read_bits(1), None);
}

#[test]
fn unary_across_byte_boundaries() {
    let mut bw = BitWriter::new();
    for q in [0u32, 1, 7, 8, 9, 63, 64, 65, 200] {
        bw.write_zeros(q);
        bw.write_bits(1, 1);
    }
    let bytes = bw.into_bytes();
    let mut br = BitReader::new(&bytes);
    for q in [0u32, 1, 7, 8, 9, 63, 64, 65, 200] {
        assert_eq!(br.read_unary(), Some(q), "q={q}");
    }
}

#[test]
fn writer_aligns_and_shows_its_bytes() {
    let mut bw = BitWriter::with_capacity(4);
    bw.write_bits(0b101, 3);
    bw.align_to_byte();
    assert_eq!(bw.bytes(), &[0b1010_0000]);
    bw.align_to_byte();
    assert_eq!(bw.bytes(), &[0b1010_0000]);
    bw.write_bits(0xFFFF_FFFF_FFFF_FFFF, 8);
    assert_eq!(bw.into_bytes(), vec![0b1010_0000, 0xFF]);
}

#[test]
fn widest_fields_are_written_whole() {
    let mut bw = BitWriter::new();
    bw.write_bits(1, 1);
    bw.write_bits(0x00AB_CDEF_0123_4567, 56);
    bw.write_signed(-2, 56);
    let bytes = bw.into_bytes();
    let mut br = BitReader::new(&bytes);
    assert_eq!(br.read_bits(1), Some(1));
    assert_eq!(br.read_bits(24), Some(0x00AB_CDEF));
    assert_eq!(br.read_bits(32), Some(0x0123_4567));
    assert_eq!(br.read_bits(24), Some(0x00FF_FFFF));
    assert_eq!(br.read_signed(32), Some(-2));
}

#[test]
fn reader_knows_where_it_is() {
    let bytes = [0x80u8, 0x01, 0xFF];
    let mut br = BitReader::new(&bytes);
    assert_eq!(br.byte_pos(), 0);
    assert!(br.is_byte_aligned());
    assert_eq!(br.read_bits(3), Some(0b100));
    assert_eq!(br.byte_pos(), 1);
    assert!(!br.is_byte_aligned());
    br.align_to_byte();
    assert_eq!(br.byte_pos(), 1);
    assert!(br.is_byte_aligned());
    assert_eq!(br.read_unary(), Some(7));
    assert_eq!(br.read_bits(0), Some(0));
    assert_eq!(br.read_bits(8), Some(0xFF));
    assert_eq!(br.read_unary(), None);
}

#[test]
fn rice_codes_read_back() {
    // 3 zeros, a one, two low bits 10: (3 << 2) | 2.
    let mut bw = BitWriter::new();
    bw.write_bits(0b0001_10, 6);
    // A quotient that does not fit into the reader's window.
    bw.write_zeros(100);
    bw.write_bits(1, 1);
    bw.write_bits(5, 3);
    let bytes = bw.into_bytes();
    let mut br = BitReader::new(&bytes);
    assert_eq!(br.read_rice(2), Some(14));
    assert_eq!(br.read_rice(3), Some(805));
    assert_eq!(br.read_rice(0), None);
}
