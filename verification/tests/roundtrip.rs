use libtlg_rs::{load_tlg, save_tlg, ByteReader, ByteWriter, TagMap, Tlg, TlgColorType};

fn noise(seed: u32, n: usize) -> Vec<u8> {
    let mut x = seed;
    let mut out = Vec::with_capacity(n);
    for _ in 0..n {
        x = x.wrapping_mul(1664525).wrapping_add(1013904223);
        out.push((x >> 24) as u8);
    }
    out
}

fn image(width: u32, height: u32, color: TlgColorType, data: Vec<u8>) -> Tlg {
    Tlg { tags: TagMap::new(), version: 5, width, height, color, data }
}

fn channels(color: TlgColorType) -> usize {
    match color {
        TlgColorType::Grayscale8 => 1,
        TlgColorType::Bgr24 => 3,
        TlgColorType::Bgra32 => 4,
    }
}

fn save(img: &Tlg) -> Vec<u8> {
    let mut w = ByteWriter::new();
    save_tlg(img, &mut w).unwrap();
    w.into_bytes()
}

fn assert_same(back: &Tlg, img: &Tlg) {
    assert_eq!(back.version, 5);
    assert_eq!(back.width, img.width);
    assert_eq!(back.height, img.height);
    assert_eq!(back.color, img.color);
    assert_eq!(back.data, img.data);
}

#[test]
fn single_gray_pixel_layout() {
    let img = image(1, 1, TlgColorType::Grayscale8, vec![0x7f]);
    let bytes = save(&img);
    let mut want = b"TLG5.0\x00raw\x1a".to_vec();
    want.extend_from_slice(&[1, 1, 0, 0, 0, 1, 0, 0, 0, 4, 0, 0, 0]);
    want.extend_from_slice(&[6, 0, 0, 0]);
    want.extend_from_slice(&[1, 1, 0, 0, 0, 0x7f]);
    assert_eq!(bytes, want);
    let back = load_tlg(ByteReader::new(&bytes)).unwrap();
    assert_same(&back, &img);
    assert!(back.tags.is_empty());
}

#[test]
fn round_trip_all_colors_and_heights() {
    for color in [TlgColorType::Grayscale8, TlgColorType::Bgr24, TlgColorType::Bgra32] {
        for height in 1..10u32 {
            for width in [1u32, 2, 7, 8, 9, 33] {
                let n = (width * height) as usize * channels(color);
                let img = image(width, height, color, noise(width * 31 + height, n));
                let back = load_tlg(ByteReader::new(&save(&img))).unwrap();
                assert_same(&back, &img);
            }
        }
    }
}

#[test]
fn round_trip_compressible_image() {
    let width = 64u32;
    let height = 19u32;
    let mut data = Vec::new();
    for y in 0..height {
        for x in 0..width {
            data.push((x / 8) as u8);
            data.push((y / 4) as u8);
            data.push(200);
            data.push(255);
        }
    }
    let img = image(width, height, TlgColorType::Bgra32, data);
    let bytes = save(&img);
    assert!(bytes.len() < img.data.len() / 4);
    let back = load_tlg(ByteReader::new(&bytes)).unwrap();
    assert_same(&back, &img);
}

#[test]
fn round_trip_drops_bytes_behind_the_pixels() {
    let mut data = noise(5, 2 * 3 * 3);
    data.extend_from_slice(&[9, 9, 9]);
    let img = image(2, 3, TlgColorType::Bgr24, data.clone());
    let back = load_tlg(ByteReader::new(&save(&img))).unwrap();
    assert_eq!(back.data, data[..18].to_vec());
}

#[test]
fn round_trip_zero_width() {
    let img = image(0, 3, TlgColorType::Bgr24, Vec::new());
    let back = load_tlg(ByteReader::new(&save(&img))).unwrap();
    assert_same(&back, &img);
}

#[test]
fn round_trip_with_tags() {
    let mut img = image(3, 2, TlgColorType::Bgr24, noise(7, 18));
    img.tags.insert(b"title".to_vec(), b"a picture".to_vec());
    img.tags.insert(Vec::new(), Vec::new());
    img.tags.insert(vec![0, 255, b',', b'=', b':'], vec![b'1', b'2', b':', 0]);
    img.tags.insert(b"12".to_vec(), b"34,".to_vec());
    let bytes = save(&img);
    assert_eq!(&bytes[..11], b"TLG0.0\x00sds\x1a");
    let back = load_tlg(ByteReader::new(&bytes)).unwrap();
    assert_same(&back, &img);
    assert_eq!(back.tags.len(), 4);
    assert_eq!(back.tags.get(b"title"), Some(&b"a picture".to_vec()));
    assert_eq!(back.tags.get(b""), Some(&Vec::new()));
    assert_eq!(back.tags.get(&[0, 255, b',', b'=', b':']), Some(&vec![b'1', b'2', b':', 0]));
    assert_eq!(back.tags.get(b"12"), Some(&b"34,".to_vec()));
    assert_eq!(back.tags.get(b"none"), None);
}

#[test]
fn tagged_file_layout() {
    let mut img = image(1, 1, TlgColorType::Grayscale8, vec![0x7f]);
    img.tags.insert(b"ab".to_vec(), b"xyz".to_vec());
    let bytes = save(&img);
    let raw = save(&image(1, 1, TlgColorType::Grayscale8, vec![0x7f]));
    let mut want = b"TLG0.0\x00sds\x1a".to_vec();
    want.extend_from_slice(&(raw.len() as u32).to_le_bytes());
    want.extend_from_slice(&raw);
    want.extend_from_slice(b"tags");
    want.extend_from_slice(&[11, 0, 0, 0]);
    want.extend_from_slice(b"2:ab=3:xyz,");
    assert_eq!(bytes, want);
}

#[test]
fn replaced_tag_is_saved_once() {
    let mut img = image(1, 1, TlgColorType::Grayscale8, vec![1]);
    img.tags.insert(b"k".to_vec(), b"old".to_vec());
    img.tags.insert(b"other".to_vec(), b"o".to_vec());
    img.tags.insert(b"k".to_vec(), b"new".to_vec());
    assert_eq!(img.tags.len(), 2);
    let back = load_tlg(ByteReader::new(&save(&img))).unwrap();
    assert_eq!(back.tags.len(), 2);
    assert_eq!(back.tags.get(b"k"), Some(&b"new".to_vec()));
    assert_eq!(back.tags.key_at(0), &b"k".to_vec());
    assert_eq!(back.tags.value_at(1), &b"o".to_vec());
}
