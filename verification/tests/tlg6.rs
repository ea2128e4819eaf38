use libtlg_rs::decimal::{append_decimal, push_decimal};
use libtlg_rs::load_tlg::load_tlg6;
use libtlg_rs::tvpgl::{
    avg, avg_packed, cal_v, make_gt_mask, med, med2, packed_bytes_add, tlg5_compose,
    tlg5_compose_colors3, tlg5_compose_colors4, tlg6_decode_golomb_values, tlg6_decode_line,
    tlg6_fetch_32bits, tlg6_init_golomb_table, tlg6_init_leading_zero_table, GolombTables,
};
use libtlg_rs::{load_tlg, ByteReader, TlgColorType, TlgError};

const TLG6: &[u8] = b"TLG6.0\x00raw\x1a";

fn header(colors: u8, flags: [u8; 3], width: u32, height: u32, max_bits: u32) -> Vec<u8> {
    let mut f = vec![colors, flags[0], flags[1], flags[2]];
    f.extend_from_slice(&width.to_le_bytes());
    f.extend_from_slice(&height.to_le_bytes());
    f.extend_from_slice(&max_bits.to_le_bytes());
    f
}

fn str_error(r: Result<libtlg_rs::Tlg, TlgError>) -> String {
    match r {
        Err(TlgError::Str(m)) => m,
        other => panic!("{:?}", other),
    }
}

#[test]
fn leading_zero_table() {
    let t = tlg6_init_leading_zero_table();
    assert_eq!(t.len(), 4096);
    assert_eq!(t[0], 0);
    assert_eq!(t[1], 1);
    assert_eq!(t[2], 2);
    assert_eq!(t[3], 1);
    assert_eq!(t[8], 4);
    assert_eq!(t[0x800], 12);
    assert_eq!(t[0xfff], 1);
    assert_eq!(t[0xff0], 5);
}

#[test]
fn golomb_bit_length_table() {
    let t = tlg6_init_golomb_table();
    assert_eq!(t.len(), 4096);
    let at = |a: usize, n: usize| t[a * 4 + n];
    assert_eq!((at(0, 0), at(2, 0), at(3, 0), at(9, 0), at(10, 0)), (0, 0, 1, 1, 2));
    assert_eq!((at(893, 0), at(894, 0), at(1023, 0)), (7, 8, 8));
    assert_eq!((at(0, 3), at(1, 3), at(2, 3), at(4, 3), at(5, 3)), (0, 0, 1, 1, 2));
    assert_eq!((at(512, 1), at(766, 1), at(767, 1)), (7, 7, 8));
    assert_eq!((at(319, 2), at(320, 2), at(639, 2), at(640, 2)), (6, 7, 7, 8));
    let tables = GolombTables::new();
    assert_eq!(tables.lead(0xabc0_1008), 4);
    assert_eq!(tables.lead(0xffff_f000), 0);
    assert_eq!(tables.bit_length(512, 3), 7);
    assert_eq!(tables.bit_length(513, 3), 8);
}

#[test]
fn fetch_four_bytes() {
    let data = [1u8, 2, 3, 4, 5];
    assert_eq!(tlg6_fetch_32bits(&data, 0).unwrap(), 0x04030201);
    assert_eq!(tlg6_fetch_32bits(&data, 1).unwrap(), 0x05040302);
    assert!(matches!(tlg6_fetch_32bits(&data, 2), Err(TlgError::IndexOutOfRange)));
    assert!(matches!(tlg6_fetch_32bits(&data, usize::MAX), Err(TlgError::IndexOutOfRange)));
    assert!(matches!(tlg6_fetch_32bits(&data[..3], 0), Err(TlgError::IndexOutOfRange)));
}

#[test]
fn packed_byte_arithmetic() {
    assert_eq!(make_gt_mask(0x10203040, 0x0f203100), 0xff0000ff);
    assert_eq!(make_gt_mask(0, 0), 0);
    assert_eq!(make_gt_mask(0xffffffff, 0xfefefefe), 0xffffffff);
    assert_eq!(packed_bytes_add(0xff01807f, 0x01ff8001), 0x00000080);
    assert_eq!(packed_bytes_add(0x01020304, 0x10203040), 0x11223344);
    assert_eq!(avg_packed(0x00ff0102, 0x00ff0204), 0x00ff0203);
    assert_eq!(avg_packed(0xff00ff00, 0x00ff00ff), 0x80808080);
    assert_eq!(med2(0x0a, 0x14, 0x05), 0x14);
    assert_eq!(med2(0x0a, 0x14, 0x19), 0x0a);
    assert_eq!(med2(0x0a, 0x14, 0x0f), 0x0f);
    assert_eq!(med2(0x14000a00, 0x0a001400, 0x0f000500), 0x0f001400);
    assert_eq!(med(0x0a, 0x14, 0x0f, 0xf1), 0x00);
    assert_eq!(avg(0x02, 0x04, 0x10), 0x13);
    assert_eq!(cal_v(1, 2, 3, 4), 0x04030201);
    assert_eq!(cal_v(255, 0, 255, 0), 0x00ff00ff);
}

#[test]
fn golomb_run_of_zeros() {
    let tables = GolombTables::new();
    // bit 0 clear: zeros first; then 0,0,1 and the two low bits 0,0: a run of 4
    let pool = [0x08u8, 0, 0, 0, 0, 0, 0, 0];
    let mut buf = vec![0xdead_beefu32; 6];
    tlg6_decode_golomb_values(&tables, &mut buf, 4, &pool, true, 0).unwrap();
    assert_eq!(buf, vec![0, 0, 0, 0, 0xdead_beef, 0xdead_beef]);
    let mut buf = vec![0xdead_beefu32; 6];
    tlg6_decode_golomb_values(&tables, &mut buf, 3, &pool, false, 1).unwrap();
    let done = 0xdead_00ef;
    assert_eq!(buf, vec![done, done, done, done, 0xdead_beef, 0xdead_beef]);
}

#[test]
fn golomb_run_of_codes() {
    let tables = GolombTables::new();
    // bit 0 set: codes first; 1: a run of 1; then 0,1: the code 1, which stands for +1
    let pool = [0x0bu8, 0, 0, 0, 0, 0, 0, 0];
    let mut buf = vec![0xaabb_ccddu32; 2];
    tlg6_decode_golomb_values(&tables, &mut buf, 1, &pool, true, 0).unwrap();
    assert_eq!(buf, vec![1, 0xaabb_ccdd]);
    let mut buf = vec![0xaabb_ccddu32; 2];
    tlg6_decode_golomb_values(&tables, &mut buf, 1, &pool, false, 2).unwrap();
    assert_eq!(buf, vec![0xaa01_ccdd, 0xaabb_ccdd]);
    // 1: a run of 1; then 1: the code 0, which stands for -1
    let pool = [0x07u8, 0, 0, 0, 0, 0, 0, 0];
    let mut buf = vec![0u32; 1];
    tlg6_decode_golomb_values(&tables, &mut buf, 1, &pool, false, 3).unwrap();
    assert_eq!(buf, vec![0xff00_0000]);
}

#[test]
fn golomb_decoding_twice_gives_the_same() {
    let tables = GolombTables::new();
    let mut pool = vec![0u8; 64];
    let mut x = 12345u32;
    for b in pool.iter_mut() {
        x = x.wrapping_mul(1664525).wrapping_add(1013904223);
        *b = (x >> 24) as u8 | 1;
    }
    let mut a = vec![1u32; 40];
    let mut b = vec![2u32; 40];
    let ra = tlg6_decode_golomb_values(&tables, &mut a, 24, &pool, true, 0);
    let rb = tlg6_decode_golomb_values(&tables, &mut b, 24, &pool, true, 0);
    assert_eq!(ra.is_ok(), rb.is_ok());
    if ra.is_ok() {
        assert_eq!(a[..24], b[..24]);
    }
    let mut c = vec![1u32; 40];
    let rc = tlg6_decode_golomb_values(&tables, &mut c, 24, &pool, true, 0);
    assert_eq!(ra.is_ok(), rc.is_ok());
    if ra.is_ok() {
        assert_eq!(a, c);
    }
}

#[test]
fn golomb_fails_on_short_pool_or_buffer() {
    let tables = GolombTables::new();
    let mut buf = vec![0u32; 4];
    for pool in [&[][..], &[0x08u8, 0, 0][..], &[0u8; 16][..]] {
        let r = tlg6_decode_golomb_values(&tables, &mut buf, 4, pool, true, 0);
        assert!(matches!(r, Err(TlgError::IndexOutOfRange)));
    }
    let pool = [0x08u8, 0, 0, 0, 0, 0, 0, 0];
    let mut short = vec![3u32; 3];
    let r = tlg6_decode_golomb_values(&tables, &mut short, 3, &pool, true, 0);
    assert!(matches!(r, Err(TlgError::IndexOutOfRange)));
    assert_eq!(short, vec![3, 3, 3]);
    let mut none = vec![5u32; 3];
    tlg6_decode_golomb_values(&tables, &mut none, 0, &pool, true, 0).unwrap();
    assert_eq!(none, vec![5, 5, 5]);
}

#[test]
fn line_of_one_block_forward() {
    let prev = [0x0101_0101u32, 0x0202_0202, 0x0303_0303];
    let inp = [0x0000_0001u32, 0x0000_0100, 0x0001_0000, 0xffff_ffff];
    let mut cur = vec![0u32; 3];
    // filter 1: mean of left and above, rounded up, plus the residual
    tlg6_decode_line(&prev, &mut cur, 3, 0, 1, &[1], 8, &inp, 0, 0, 0, true).unwrap();
    assert_eq!(cur, vec![0x0101_0102, 0x0202_0302, 0x0304_0303]);
    // the same residuals read backward from the end of the block
    let mut back = vec![0u32; 3];
    tlg6_decode_line(&prev, &mut back, 3, 0, 1, &[1], 8, &inp, 0, 0, 0, false).unwrap();
    assert_eq!(back, vec![0x0102_0101, 0x0202_0302, 0x0303_0304]);
}

#[test]
fn line_filters_recombine_channels() {
    let prev = [0u32];
    let inp = [0x0403_0201u32];
    let expect: [(u8, u32); 6] = [
        (0, 0x0403_0201),
        (2, 0x0405_0203),
        (4, 0x0406_0301),
        (16, 0x0405_0201),
        (30, 0x0405_0401),
        (31, 0x0405_0401),
    ];
    for (filter, want) in expect {
        let mut cur = vec![0u32; 1];
        tlg6_decode_line(&prev, &mut cur, 1, 0, 1, &[filter], 8, &inp, 0, 0, 0, true).unwrap();
        assert_eq!(cur[0], want);
    }
}

#[test]
fn line_fails_on_bad_filter_or_short_buffers() {
    let prev = [0u32; 8];
    let inp = [0u32; 8];
    let mut cur = vec![0u32; 8];
    match tlg6_decode_line(&prev, &mut cur, 8, 0, 1, &[32], 8, &inp, 0, 0, 0, true) {
        Err(TlgError::Str(m)) => assert_eq!(m, "Unsupported filter type: 32"),
        other => panic!("{:?}", other),
    }
    let r = tlg6_decode_line(&prev, &mut cur, 8, 0, 1, &[], 8, &inp, 0, 0, 0, true);
    assert!(matches!(r, Err(TlgError::IndexOutOfRange)));
    let r = tlg6_decode_line(&prev, &mut cur, 8, 0, 1, &[0], 8, &inp[..7], 0, 0, 0, true);
    assert!(matches!(r, Err(TlgError::IndexOutOfRange)));
    let r = tlg6_decode_line(&prev, &mut cur, 8, 0, 2, &[0, 0], 8, &inp, 0, 0, 0, true);
    assert!(matches!(r, Err(TlgError::IndexOutOfRange)));
    let r = tlg6_decode_line(&prev, &mut cur, 9, 1, 2, &[0, 0], 8, &inp, 0, 0, 0, true);
    assert!(matches!(r, Err(TlgError::IndexOutOfRange)));
    let r = tlg6_decode_line(&prev, &mut cur, 8, 3, 2, &[], 8, &[], 0, 0, 0, true);
    assert!(matches!(r, Err(TlgError::IndexOutOfRange)));
    tlg6_decode_line(&prev, &mut cur, 8, 1, 1, &[], 8, &[], 0, 0, 0, true).unwrap();
    tlg6_decode_line(&prev, &mut cur, 8, 0, 0, &[], 8, &[], 0, 0, 0, true).unwrap();
}

#[test]
fn one_gray_pixel() {
    let mut f = TLG6.to_vec();
    f.extend_from_slice(&header(1, [0, 0, 0], 1, 1, 64));
    f.extend_from_slice(&[2, 0, 0, 0, 0, 0]);
    f.extend_from_slice(&[8, 0, 0, 0, 0x0b]);
    let img = load_tlg(ByteReader::new(&f)).unwrap();
    assert_eq!(img.version, 6);
    assert_eq!((img.width, img.height), (1, 1));
    assert_eq!(img.color, TlgColorType::Grayscale8);
    assert_eq!(img.data, vec![1]);
    assert!(img.tags.is_empty());
}

#[test]
fn color_pixels_with_zero_residuals() {
    // 9 x 2 BGR, all residuals zero: every pixel is predicted from opaque black
    let mut f = TLG6.to_vec();
    f.extend_from_slice(&header(3, [0, 0, 0], 9, 2, 64));
    f.extend_from_slice(&[3, 0, 0, 0, 0, 0, 1]);
    for _ in 0..3 {
        // zeros first, then 0,0,0,0,1 and four low bits 0,0,1,0: a run of 18
        f.extend_from_slice(&[16, 0, 0, 0, 0x20, 0x01]);
    }
    let img = load_tlg(ByteReader::new(&f)).unwrap();
    assert_eq!((img.width, img.height), (9, 2));
    assert_eq!(img.color, TlgColorType::Bgr24);
    assert_eq!(img.data, vec![0u8; 54]);
}

#[test]
fn two_rows_of_two_blocks() {
    // 9 pixels: a block of 8 and a block of 1; the residuals of a band of
    // two rows lie block by block, and median prediction from zeros sums them up
    let inp: Vec<u32> = (1..=18).collect();
    let ft = [0u8, 0];
    let above = vec![0u32; 9];
    let mut row0 = vec![0u32; 9];
    tlg6_decode_line(&above, &mut row0, 9, 0, 1, &ft, 16, &inp, 0, 0, 1, true).unwrap();
    tlg6_decode_line(&above, &mut row0, 9, 1, 2, &ft, 16, &inp, 0, 0, 1, true).unwrap();
    assert_eq!(row0, vec![1, 3, 6, 10, 15, 21, 28, 36, 54]);
    let mut row1 = vec![0u32; 9];
    tlg6_decode_line(&row0, &mut row1, 9, 0, 1, &ft, 16, &inp, 8, 0, -1, false).unwrap();
    tlg6_decode_line(&row0, &mut row1, 9, 1, 2, &ft, 16, &inp, 1, 0, -1, false).unwrap();
    assert_eq!(row1, vec![17, 32, 46, 59, 71, 82, 92, 101, 118]);
}

#[test]
fn one_color_pixel_with_alpha() {
    let mut f = TLG6.to_vec();
    f.extend_from_slice(&header(4, [0, 0, 0], 1, 1, 64));
    // one filter type, 2: median prediction, blue and red relative to green
    f.extend_from_slice(&[2, 0, 0, 0, 0, 2]);
    for _ in 0..4 {
        f.extend_from_slice(&[8, 0, 0, 0, 0x0b]);
    }
    let img = load_tlg(ByteReader::new(&f)).unwrap();
    assert_eq!(img.color, TlgColorType::Bgra32);
    assert_eq!(img.data, vec![2, 1, 2, 1]);
}

#[test]
fn failed_golomb_decoding_keeps_what_was_decoded() {
    let tables = GolombTables::new();
    // three bytes hold no run length: nothing is touched
    let mut buf = vec![0x1122_3344u32];
    let r = tlg6_decode_golomb_values(&tables, &mut buf, 1, &[0x02, 0, 0], false, 0);
    assert!(matches!(r, Err(TlgError::IndexOutOfRange)));
    assert_eq!(buf, vec![0x1122_3344]);
    // a run of two codes: the first, +1, is decoded, the second runs out of the pool
    let mut buf = vec![0xaabb_ccddu32; 2];
    let r = tlg6_decode_golomb_values(&tables, &mut buf, 2, &[0x25, 0, 0, 0], false, 1);
    assert!(matches!(r, Err(TlgError::IndexOutOfRange)));
    assert_eq!(buf, vec![0xaabb_01dd, 0xaabb_ccdd]);
    // the same with whole pixels, and the same again
    for _ in 0..2 {
        let mut buf = vec![0xaabb_ccddu32; 2];
        let r = tlg6_decode_golomb_values(&tables, &mut buf, 2, &[0x25, 0, 0, 0], true, 0);
        assert!(matches!(r, Err(TlgError::IndexOutOfRange)));
        assert_eq!(buf, vec![1, 0xaabb_ccdd]);
    }
    // a run of codes that is longer than the buffer is decoded as far as the buffer goes
    let mut buf = vec![0xaabb_ccddu32; 1];
    let r = tlg6_decode_golomb_values(&tables, &mut buf, 2, &[0x25, 0, 0, 0, 0, 0, 0, 0], true, 0);
    assert!(matches!(r, Err(TlgError::IndexOutOfRange)));
    assert_eq!(buf, vec![1]);
}

#[test]
fn failed_line_keeps_what_was_decoded() {
    let mut cur = vec![7u32];
    match tlg6_decode_line(&[0], &mut cur, 1, 0, 1, &[32], 8, &[0], 0, 0, 0, true) {
        Err(TlgError::Str(m)) => assert_eq!(m, "Unsupported filter type: 32"),
        other => panic!("{:?}", other),
    }
    assert_eq!(cur, vec![7]);
    // the first block is decoded, the second has a filter that does not exist
    let inp: Vec<u32> = (1..=18).collect();
    let mut row = vec![9u32; 10];
    match tlg6_decode_line(&[0; 10], &mut row, 10, 0, 2, &[0, 200], 16, &inp, 0, 0, 0, true) {
        Err(TlgError::Str(m)) => assert_eq!(m, "Unsupported filter type: 200"),
        other => panic!("{:?}", other),
    }
    assert_eq!(row, vec![1, 3, 6, 10, 15, 21, 28, 36, 9, 9]);
}

#[test]
fn line_takes_any_numbers() {
    let prev = [0u32; 9];
    let mut cur = vec![5u32; 9];
    let big = usize::MAX;
    tlg6_decode_line(&prev, &mut cur, 1, 0, 1, &[0], big, &[4], 0, 0, isize::MIN, true).unwrap();
    assert_eq!(cur[0], 4);
    tlg6_decode_line(&prev, &mut cur, 1, big, 1, &[0], big, &[4], big, 0, isize::MAX, true)
        .unwrap_err();
    let r = tlg6_decode_line(&prev, &mut cur, 9, 1, 2, &[0, 0], big, &[4], 0, 0, isize::MIN, true);
    assert!(matches!(r, Err(TlgError::IndexOutOfRange)));
    let r = tlg6_decode_line(&prev, &mut cur, 9, 1, big, &[0, 0], big, &[4], big, 0, 7, false);
    assert!(matches!(r, Err(TlgError::IndexOutOfRange)));
    assert_eq!(cur, vec![4, 5, 5, 5, 5, 5, 5, 5, 5]);
    // a pass writes the columns of its blocks only
    let inp: Vec<u32> = (1..=32).collect();
    let mut row = vec![77u32; 20];
    tlg6_decode_line(&[0; 20], &mut row, 20, 1, 2, &[0, 0, 0], 8, &inp, 0, 0, 0, true).unwrap();
    assert_eq!(&row[..8], &[77; 8]);
    assert_eq!(&row[16..], &[77; 4]);
    assert_eq!(row[8], 77 + 9);
}

#[test]
fn refused_flags_leave_the_rest_unread() {
    let mut bytes = header(1, [0, 1, 0], 1, 1, 64);
    bytes.extend_from_slice(&[0; 30]);
    let mut src = ByteReader::new(&bytes);
    assert_eq!(str_error(load_tlg6(&mut src)), "Color types must be 0");
    assert_eq!(src.left(), bytes.len() - 4);
    bytes[0] = 9;
    bytes[2] = 0;
    let mut src = ByteReader::new(&bytes);
    assert!(matches!(load_tlg6(&mut src), Err(TlgError::UnsupportedColorType(9))));
    assert_eq!(src.left(), bytes.len() - 4);
}

#[test]
fn header_flags_must_be_zero() {
    let mut body = header(4, [0, 1, 0], 1, 1, 64);
    assert_eq!(str_error(load_tlg6(&mut ByteReader::new(&body))), "Color types must be 0");
    body[2] = 0;
    body[1] = 7;
    assert_eq!(str_error(load_tlg6(&mut ByteReader::new(&body))), "Data flags must be 0");
    body[1] = 0;
    body[3] = 1;
    assert_eq!(
        str_error(load_tlg6(&mut ByteReader::new(&body))),
        "External golomb bit length table is not yet supported."
    );
    // the flags are looked at before anything behind them is read
    assert_eq!(str_error(load_tlg6(&mut ByteReader::new(&[1, 0, 1, 0]))), "Color types must be 0");
    let mut f = TLG6.to_vec();
    f.extend_from_slice(&[1, 0, 9, 0]);
    assert_eq!(str_error(load_tlg(ByteReader::new(&f))), "Color types must be 0");
}

#[test]
fn stream_errors() {
    match load_tlg6(&mut ByteReader::new(&header(5, [0, 0, 0], 1, 1, 64))) {
        Err(TlgError::UnsupportedColorType(5)) => {}
        other => panic!("{:?}", other),
    }
    let zero = header(1, [0, 0, 0], 0, 1, 64);
    assert!(matches!(load_tlg6(&mut ByteReader::new(&zero)), Err(TlgError::InvalidFormat)));
    let zero = header(1, [0, 0, 0], 1, 0, 64);
    assert!(matches!(load_tlg6(&mut ByteReader::new(&zero)), Err(TlgError::InvalidFormat)));
    let mut f = header(1, [0, 0, 0], 1, 1, 64);
    assert!(matches!(load_tlg6(&mut ByteReader::new(&f[..15])), Err(TlgError::Io)));
    assert!(matches!(load_tlg6(&mut ByteReader::new(&f)), Err(TlgError::Io)));
    f.extend_from_slice(&[2, 0, 0, 0, 0, 0]);
    assert!(matches!(load_tlg6(&mut ByteReader::new(&f)), Err(TlgError::Io)));
    let mut method = f.clone();
    method.extend_from_slice(&[8, 0, 0, 0x40, 0x0b]);
    match load_tlg6(&mut ByteReader::new(&method)) {
        Err(TlgError::UnsupportedCompressedMethod(1)) => {}
        other => panic!("{:?}", other),
    }
    let mut big = f.clone();
    big.extend_from_slice(&[13 * 8 - 7, 0, 0, 0]);
    big.extend_from_slice(&[0x0b; 13]);
    assert_eq!(
        str_error(load_tlg6(&mut ByteReader::new(&big))),
        "Bit pool is too small for the given bit length"
    );
    let mut empty_pool = f.clone();
    empty_pool.extend_from_slice(&[8, 0, 0, 0, 0]);
    assert!(matches!(
        load_tlg6(&mut ByteReader::new(&empty_pool)),
        Err(TlgError::IndexOutOfRange)
    ));
    let mut filters = header(1, [0, 0, 0], 1, 1, 64);
    filters.extend_from_slice(&[3, 0, 0, 0, 0, 0, 0]);
    assert!(matches!(load_tlg6(&mut ByteReader::new(&filters)), Err(TlgError::IndexOutOfRange)));
    let mut bad_filter = header(1, [0, 0, 0], 1, 1, 64);
    bad_filter.extend_from_slice(&[2, 0, 0, 0, 0, 40]);
    bad_filter.extend_from_slice(&[8, 0, 0, 0, 0x0b]);
    assert_eq!(
        str_error(load_tlg6(&mut ByteReader::new(&bad_filter))),
        "Unsupported filter type: 40"
    );
}

#[test]
fn compose_rows() {
    let bufs = vec![vec![9u8, 10, 0, 250], vec![9, 1, 2, 3], vec![9, 0, 255, 0], vec![9, 5, 5, 5]];
    let mut out = vec![0u8; 7];
    tlg5_compose_colors3(&mut out, &[1, 1, 1, 1, 1, 1], &bufs, 1, 2);
    assert_eq!(out, vec![12, 2, 2, 14, 4, 3, 0]);
    let mut out = vec![0u8; 8];
    tlg5_compose_colors4(&mut out, &[0; 8], &bufs, 2, 2);
    assert_eq!(out, vec![2, 2, 1, 5, 255, 5, 4, 10]);
    let mut out = vec![7u8; 4];
    tlg5_compose(&mut out, &[100, 200, 0], &bufs, 1, 3, 1);
    assert_eq!(out, vec![110, 210, 4, 7]);
}

#[test]
fn decimal_notation() {
    let mut bytes = vec![b'#'];
    push_decimal(&mut bytes, 0);
    push_decimal(&mut bytes, 7);
    push_decimal(&mut bytes, 10);
    push_decimal(&mut bytes, 4096);
    assert_eq!(bytes, b"#07104096".to_vec());
    let mut text = String::new();
    append_decimal(&mut text, 0);
    append_decimal(&mut text, 340282366920938463463374607431768211455);
    assert_eq!(text, "0340282366920938463463374607431768211455");
}
