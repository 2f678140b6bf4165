use garnetash::bitstream::{
    annexb, ebsp_to_rbsp, rbsp_to_ebsp, write_nal, BitReader, BitWriter, NalUnitType,
};

#[test]
fn reader_inverts_writer() {
    let mut w = BitWriter::new();
    w.put_bits(0b10110, 5);
    w.put_ue(0);
    w.put_ue(42);
    w.put_se(-7);
    w.put_se(13);
    w.put_bits(0xABCD, 16);
    w.byte_align();
    let bytes = w.into_bytes();
    let mut r = BitReader::new(&bytes);
    assert_eq!(r.read_bits(5), 0b10110);
    assert_eq!(r.read_ue(), 0);
    assert_eq!(r.read_ue(), 42);
    assert_eq!(r.read_se(), -7);
    assert_eq!(r.read_se(), 13);
    assert_eq!(r.read_bits(16), 0xABCD);
}

#[test]
fn ue_known_values() {
    // codeNum -> bit pattern: 0 -> "1", 1 -> "010", 2 -> "011", 3 -> "00100", 4 -> "00101"
    let cases: &[(u32, &[u32])] = &[
        (0, &[1]),
        (1, &[0, 1, 0]),
        (2, &[0, 1, 1]),
        (3, &[0, 0, 1, 0, 0]),
        (4, &[0, 0, 1, 0, 1]),
    ];
    for (v, bits) in cases {
        let mut w = BitWriter::new();
        w.put_ue(*v);
        w.byte_align();
        let total: Vec<u32> = {
            let bytes = w.bytes.clone();
            let mut out = Vec::new();
            for byte in bytes {
                for i in (0..8).rev() {
                    out.push(((byte >> i) & 1) as u32);
                }
            }
            out
        };
        assert_eq!(&total[..bits.len()], *bits, "ue({v})");
    }
}

#[test]
fn se_maps_to_expected_codenum() {
    let map: &[(i32, u32)] = &[(0, 0), (1, 1), (-1, 2), (2, 3), (-2, 4)];
    for (val, code) in map {
        let mut a = BitWriter::new();
        a.put_se(*val);
        a.byte_align();
        let mut b = BitWriter::new();
        b.put_ue(*code);
        b.byte_align();
        assert_eq!(a.bytes, b.bytes, "se({val}) should equal ue({code})");
    }
}

#[test]
fn emulation_prevention_inserts_03() {
    assert_eq!(rbsp_to_ebsp(&[0, 0, 0]), vec![0, 0, 3, 0]);
    assert_eq!(rbsp_to_ebsp(&[0, 0, 1]), vec![0, 0, 3, 1]);
    assert_eq!(rbsp_to_ebsp(&[0, 0, 2]), vec![0, 0, 3, 2]);
    assert_eq!(rbsp_to_ebsp(&[0, 0, 3]), vec![0, 0, 3, 3]);
    assert_eq!(rbsp_to_ebsp(&[0, 1, 2]), vec![0, 1, 2]);
    assert_eq!(rbsp_to_ebsp(&[0, 0, 0, 0]), vec![0, 0, 3, 0, 0]);
}

#[test]
fn nal_header_two_bytes() {
    let nal = write_nal(NalUnitType::Sps, &[0xFF], 1);
    assert_eq!(nal.len(), 3);
    assert_eq!(nal[0], 0x00);
    assert_eq!(nal[1], 0x79);
}

#[test]
fn rbsp_trailing_bits_aligns() {
    let mut w = BitWriter::new();
    w.put_bits(0b101, 3);
    w.rbsp_trailing_bits();
    assert!(w.is_byte_aligned());
    assert_eq!(w.into_bytes(), vec![0xB0]);
}

#[test]
fn ebsp_round_trip_on_zero_runs() {
    let cases: &[&[u8]] = &[
        &[],
        &[0, 0, 0],
        &[0, 0, 3, 0, 0, 1],
        &[0, 0, 0, 0, 0, 0, 2, 3],
        &[1, 0, 0, 3],
        &[0, 0],
    ];
    for &c in cases {
        assert_eq!(ebsp_to_rbsp(&rbsp_to_ebsp(c)), c.to_vec());
    }
    // Stripping keeps a 0x03 that is not followed by a byte <= 3.
    assert_eq!(ebsp_to_rbsp(&[0, 0, 3, 7]), vec![0, 0, 3, 7]);
    assert_eq!(ebsp_to_rbsp(&[0, 0, 3]), vec![0, 0, 3]);
}

#[test]
fn annexb_prefixes_start_code() {
    assert_eq!(annexb(&[0x12, 0x34]), vec![0, 0, 0, 1, 0x12, 0x34]);
    assert_eq!(NalUnitType::PrefixSei.value(), 23);
    assert_eq!(NalUnitType::IdrNLp.value(), 8);
}

#[test]
fn signed_and_unsigned_codes_round_trip() {
    let vals_u = [0u32, 1, 2, 7, 8, 255, 65535, 0x7fff_ffff, 0xffff_fffe];
    let vals_s = [0i32, 1, -1, 100, -100, i32::MAX, i32::MIN + 1];
    let mut w = BitWriter::new();
    for &v in &vals_u {
        w.put_ue(v);
    }
    for &v in &vals_s {
        w.put_se(v);
    }
    w.rbsp_trailing_bits();
    let bytes = w.into_bytes();
    let mut r = BitReader::new(&bytes);
    for &v in &vals_u {
        assert_eq!(r.read_ue(), v);
    }
    for &v in &vals_s {
        assert_eq!(r.read_se(), v);
    }
    assert_eq!(r.read_bits(1), 1);
    r.byte_align();
    assert_eq!(r.bit_pos(), bytes.len() * 8);
}
