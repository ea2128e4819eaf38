use libtlg_rs::slide::SlideCompressor;
use libtlg_rs::tvpgl::tlg5_decompress_slide;
use libtlg_rs::TlgError;

fn noise(seed: u32, n: usize) -> Vec<u8> {
    let mut x = seed;
    let mut out = Vec::with_capacity(n);
    for _ in 0..n {
        x = x.wrapping_mul(1664525).wrapping_add(1013904223);
        out.push((x >> 24) as u8);
    }
    out
}

fn unpack(packed: &[u8], n: usize, text: &mut Vec<u8>, r: usize) -> (Vec<u8>, usize) {
    let mut out = vec![0xeeu8; n];
    let r = tlg5_decompress_slide(&mut out, packed, packed.len(), text, r).unwrap();
    (out, r)
}

#[test]
fn empty_input_packs_to_nothing() {
    let mut c = SlideCompressor::new();
    let mut out = Vec::new();
    assert_eq!(c.encode_into(&[], &mut out), 0);
    assert!(out.is_empty());
    let mut text = vec![0u8; 4096];
    let (back, r) = unpack(&out, 0, &mut text, 0);
    assert!(back.is_empty());
    assert_eq!(r, 0);
}

#[test]
fn empty_input_returns_zero_behind_earlier_output() {
    let mut c = SlideCompressor::new();
    let mut out = vec![1, 2, 3];
    assert_eq!(c.encode_into(&[], &mut out), 0);
    assert_eq!(out, vec![1, 2, 3]);
}

#[test]
fn literals_for_fresh_bytes() {
    let mut c = SlideCompressor::new();
    let mut out = Vec::new();
    let n = c.encode_into(&[1, 2, 3], &mut out);
    assert_eq!(n, 4);
    assert_eq!(out, vec![0, 1, 2, 3]);
}

#[test]
fn long_run_uses_longest_match() {
    let input = vec![0u8; 600];
    let mut c = SlideCompressor::new();
    let mut out = Vec::new();
    let n = c.encode_into(&input, &mut out);
    assert_eq!(n, out.len());
    assert_eq!(out[0] & 1, 1);
    assert_eq!(&out[1..4], &[0x01, 0xf0, 0xff]);
    assert!(out.len() < 20);
    let mut text = vec![0u8; 4096];
    let (back, r) = unpack(&out, 600, &mut text, 0);
    assert_eq!(back, input);
    assert_eq!(r, 600);
}

#[test]
fn round_trip_of_mixed_data() {
    let mut input = noise(1, 300);
    input.extend_from_slice(&vec![7u8; 1000]);
    input.extend_from_slice(&noise(1, 300));
    input.extend_from_slice(b"abcabcabcabcabcabcabcabcabcabcabc");
    input.extend_from_slice(&noise(2, 5000));
    let mut c = SlideCompressor::new();
    let mut out = Vec::new();
    c.encode_into(&input, &mut out);
    let mut text = vec![0u8; 4096];
    let (back, r) = unpack(&out, input.len(), &mut text, 0);
    assert_eq!(back, input);
    assert_eq!(r, input.len() % 4096);
}

#[test]
fn window_is_kept_between_calls() {
    let a = noise(3, 5000);
    let b = a[1000..4000].to_vec();
    let mut c = SlideCompressor::new();
    let mut pa = Vec::new();
    c.encode_into(&a, &mut pa);
    let mut pb = Vec::new();
    c.encode_into(&b, &mut pb);
    assert!(pb.len() < b.len() / 4);
    let mut text = vec![0u8; 4096];
    let (back_a, r) = unpack(&pa, a.len(), &mut text, 0);
    let (back_b, _) = unpack(&pb, b.len(), &mut text, r);
    assert_eq!(back_a, a);
    assert_eq!(back_b, b);
}

#[test]
fn restore_undoes_an_attempt() {
    let first = noise(4, 700);
    let tried = noise(5, 900);
    let next = noise(6, 800);
    let mut c = SlideCompressor::new();
    let mut sink = Vec::new();
    c.encode_into(&first, &mut sink);
    c.store();
    let mut wasted = Vec::new();
    c.encode_into(&tried, &mut wasted);
    c.restore();
    let mut got = Vec::new();
    c.encode_into(&next, &mut got);

    let mut d = SlideCompressor::new();
    let mut sink2 = Vec::new();
    d.encode_into(&first, &mut sink2);
    let mut want = Vec::new();
    d.encode_into(&next, &mut want);
    assert_eq!(got, want);
}

#[test]
fn restore_without_store_gives_the_first_state() {
    let data = noise(8, 500);
    let mut c = SlideCompressor::new();
    let mut a = Vec::new();
    c.encode_into(&data, &mut a);
    c.restore();
    let mut b = Vec::new();
    c.encode_into(&data, &mut b);
    assert_eq!(a, b);
}

#[test]
fn unpack_literals_and_match() {
    // control byte 0b100: two literals, then a match of 3 bytes from window offset 0
    let packed = [0b100u8, 0x41, 0x42, 0x00, 0x00];
    let mut text = vec![0u8; 4096];
    let mut out = vec![9u8; 8];
    let r = tlg5_decompress_slide(&mut out, &packed, 5, &mut text, 0).unwrap();
    assert_eq!(r, 5);
    assert_eq!(out, vec![0x41, 0x42, 0x41, 0x42, 0x41, 9, 9, 9]);
    assert_eq!(&text[..6], &[0x41, 0x42, 0x41, 0x42, 0x41, 0]);
}

#[test]
fn unpack_long_match_with_length_byte() {
    // one match: offset 0x123, length code 15, extension 2: 20 bytes
    let packed = [1u8, 0x23, 0xf1, 2];
    let mut text = vec![0u8; 4096];
    text[0x123] = 5;
    let mut out = vec![0u8; 20];
    let r = tlg5_decompress_slide(&mut out, &packed, 4, &mut text, 4090).unwrap();
    assert_eq!(r, (4090 + 20) % 4096);
    assert_eq!(out[0], 5);
    assert_eq!(&out[1..], &[0u8; 19]);
    assert_eq!(text[4090], 5);
}

#[test]
fn unpack_fails_inside_a_token() {
    let mut text = vec![0u8; 4096];
    let mut out = vec![0u8; 16];
    for packed in [&[0u8][..], &[1, 0][..], &[1, 0, 0xf0][..], &[1][..]] {
        let r = tlg5_decompress_slide(&mut out, packed, packed.len(), &mut text, 0);
        assert!(matches!(r, Err(TlgError::IndexOutOfRange)));
    }
}

#[test]
fn unpack_fails_where_the_output_is_too_small() {
    let mut text = vec![0u8; 4096];
    let mut out = vec![0u8; 2];
    let r = tlg5_decompress_slide(&mut out, &[0, 1, 2, 3], 4, &mut text, 0);
    assert!(matches!(r, Err(TlgError::IndexOutOfRange)));
    let r = tlg5_decompress_slide(&mut out, &[0, 1, 2], 9, &mut text, 0);
    assert!(matches!(r, Err(TlgError::IndexOutOfRange)));
}

#[test]
fn failed_unpack_keeps_the_tokens_before() {
    let mut text = vec![0u8; 4096];
    let mut out = vec![9u8; 2];
    let r = tlg5_decompress_slide(&mut out, &[0, 0x41, 0x42, 0x43], 4, &mut text, 10);
    assert!(matches!(r, Err(TlgError::IndexOutOfRange)));
    assert_eq!(out, vec![0x41, 0x42]);
    assert_eq!(&text[10..13], &[0x41, 0x42, 0]);
    // a literal, then a match that is cut short
    let mut text = vec![0u8; 4096];
    let mut out = vec![9u8; 8];
    let r = tlg5_decompress_slide(&mut out, &[0b10, 7, 0], 3, &mut text, 0);
    assert!(matches!(r, Err(TlgError::IndexOutOfRange)));
    assert_eq!(out, vec![7, 9, 9, 9, 9, 9, 9, 9]);
    assert_eq!(text[0], 7);
    // more is asked for than there is: nothing is unpacked
    let mut out = vec![9u8; 8];
    let r = tlg5_decompress_slide(&mut out, &[0, 1], 3, &mut text, 1);
    assert!(matches!(r, Err(TlgError::IndexOutOfRange)));
    assert_eq!(out, vec![9; 8]);
    assert_eq!(&text[..3], &[7, 0, 0]);
}
