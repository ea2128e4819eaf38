use libtlg_rs::load_tlg::{internal_load_tlg, load_tlg5};
use libtlg_rs::stream::{u32_from_le, u32_to_le, ReadExt, WriteExt};
use libtlg_rs::tlg5_saver::save_tlg5;
use libtlg_rs::{
    check_tlg, convert_bgr_to_rgb, is_valid_tlg, load_tlg, save_tlg, ByteReader, ByteWriter,
    TagMap, Tlg, TlgColorType, TlgError,
};

const TLG0: &[u8] = b"TLG0.0\x00sds\x1a";
const TLG5: &[u8] = b"TLG5.0\x00raw\x1a";
const TLG6: &[u8] = b"TLG6.0\x00raw\x1a";

fn gray(width: u32, height: u32, data: Vec<u8>) -> Tlg {
    Tlg { tags: TagMap::new(), version: 5, width, height, color: TlgColorType::Grayscale8, data }
}

fn raw_stream(img: &Tlg) -> Vec<u8> {
    let mut w = ByteWriter::new();
    save_tlg5(img, &mut w).unwrap();
    w.into_bytes()
}

fn container(raw: &[u8], rawlen: u32, chunks: &[u8]) -> Vec<u8> {
    let mut f = TLG0.to_vec();
    f.extend_from_slice(&rawlen.to_le_bytes());
    f.extend_from_slice(raw);
    f.extend_from_slice(chunks);
    f
}

fn chunk(name: &[u8; 4], payload: &[u8]) -> Vec<u8> {
    let mut c = name.to_vec();
    c.extend_from_slice(&(payload.len() as u32).to_le_bytes());
    c.extend_from_slice(payload);
    c
}

#[test]
fn valid_signatures() {
    for magic in [TLG0, TLG5, TLG6] {
        assert!(is_valid_tlg(magic));
        let mut longer = magic.to_vec();
        longer.extend_from_slice(&[1, 2, 3]);
        assert!(is_valid_tlg(&longer));
        assert!(!is_valid_tlg(&magic[..10]));
        for i in 0..11 {
            let mut other = magic.to_vec();
            other[i] ^= 1;
            assert!(!is_valid_tlg(&other));
        }
    }
    assert!(!is_valid_tlg(b""));
    assert!(!is_valid_tlg(b"TLG7.0\x00raw\x1a"));
    assert!(!is_valid_tlg(b"TLG5.0\x00sds\x1a"));
    assert!(!is_valid_tlg(&[0u8; 64]));
}

#[test]
fn check_reads_eleven_bytes() {
    let mut data = TLG6.to_vec();
    data.push(0);
    assert_eq!(check_tlg(ByteReader::new(&data)).unwrap(), true);
    assert_eq!(check_tlg(ByteReader::new(&[b'x'; 11])).unwrap(), false);
    assert!(matches!(check_tlg(ByteReader::new(&TLG5[..10])), Err(TlgError::Io)));
    let mut moved = ByteReader::new(&data);
    moved.skip(5);
    assert_eq!(check_tlg(moved).unwrap(), true);
}

#[test]
fn little_endian_integers() {
    assert_eq!(u32_from_le(0x78, 0x56, 0x34, 0x12), 0x12345678);
    assert_eq!(u32_to_le(0x12345678), [0x78, 0x56, 0x34, 0x12]);
    assert_eq!(u32_to_le(0xffff_fffe), [0xfe, 0xff, 0xff, 0xff]);
    let bytes = [1u8, 0x10, 0x20, 0x30, 0x40, 9];
    let mut r = ByteReader::new(&bytes);
    assert_eq!(r.read_u8().unwrap(), 1);
    assert_eq!(r.read_u32().unwrap(), 0x40302010);
    assert_eq!(r.left(), 1);
    assert!(matches!(r.read_u32(), Err(TlgError::Io)));
    assert_eq!(r.read_u8().unwrap(), 9);
    assert!(matches!(r.read_u8(), Err(TlgError::Io)));
    r.seek(4);
    assert_eq!(r.read_exact(2).unwrap(), &[0x40, 9]);
    r.seek(100);
    assert_eq!(r.left(), 0);
    r.rewind();
    r.skip(100);
    assert_eq!(r.left(), 0);
    r.rewind();
    assert_eq!(r.left(), 6);
}

#[test]
fn writer_appends_and_patches() {
    let mut w = ByteWriter::new();
    w.write_u8(7);
    w.write_u32(0);
    w.write_all(b"xy");
    assert_eq!(w.stream_position(), 7);
    w.patch_u32(1, 0x01020304);
    w.patch_u32(4, 5);
    assert_eq!(w.into_bytes(), vec![7, 4, 3, 2, 1, b'x', b'y']);
}

#[test]
fn plain_stream_by_hand() {
    // 2 x 1 grayscale, block height 4, one block stored as it is: deltas 5 and 3
    let mut f = TLG5.to_vec();
    f.extend_from_slice(&[1, 2, 0, 0, 0, 1, 0, 0, 0, 4, 0, 0, 0]);
    f.extend_from_slice(&[0, 0, 0, 0]);
    f.extend_from_slice(&[1, 2, 0, 0, 0, 5, 3]);
    let img = load_tlg(ByteReader::new(&f)).unwrap();
    assert_eq!(img.version, 5);
    assert_eq!((img.width, img.height), (2, 1));
    assert_eq!(img.color, TlgColorType::Grayscale8);
    assert_eq!(img.data, vec![5, 8]);
    assert!(img.tags.is_empty());
}

#[test]
fn rows_add_the_row_above_and_wrap() {
    // 2 x 2 BGR in one block; deltas per channel, blue and red relative to green
    let mut f = TLG5.to_vec();
    f.extend_from_slice(&[3, 2, 0, 0, 0, 2, 0, 0, 0, 4, 0, 0, 0]);
    f.extend_from_slice(&[0, 0, 0, 0]);
    f.extend_from_slice(&[1, 4, 0, 0, 0, 10, 0, 250, 0]);
    f.extend_from_slice(&[1, 4, 0, 0, 0, 1, 2, 3, 4]);
    f.extend_from_slice(&[1, 4, 0, 0, 0, 0, 255, 0, 100]);
    let img = load_tlg(ByteReader::new(&f)).unwrap();
    // row 0: b = 10+1, then +0+2; g = 1, 3; r = 0+1, then +255+2 (wraps)
    // row 1: sums b = 253, 1; g = 3, 7; r = 3, 107; plus the row above
    assert_eq!(img.data, vec![11, 1, 1, 13, 3, 2, 8, 4, 4, 14, 10, 109]);
}

#[test]
fn short_planes_leave_the_buffers_as_they_were() {
    // 1 x 2 grayscale, block height 1: the second block holds no bytes, so the
    // delta of the first block is used again
    let mut f = TLG5.to_vec();
    f.extend_from_slice(&[1, 1, 0, 0, 0, 2, 0, 0, 0, 1, 0, 0, 0]);
    f.extend_from_slice(&[0; 8]);
    f.extend_from_slice(&[1, 1, 0, 0, 0, 9]);
    f.extend_from_slice(&[1, 0, 0, 0, 0]);
    let img = load_tlg(ByteReader::new(&f)).unwrap();
    assert_eq!(img.data, vec![9, 18]);
}

#[test]
fn container_with_chunks() {
    let raw = raw_stream(&gray(2, 2, vec![1, 2, 3, 4]));
    let mut chunks = chunk(b"note", b"whatever, ignored");
    chunks.extend_from_slice(&chunk(b"tags", b"1:a=1:b,2:cd=0:,"));
    chunks.extend_from_slice(&chunk(b"tags", b"1:a=2:zz,"));
    chunks.extend_from_slice(b"end");
    let img = load_tlg(ByteReader::new(&container(&raw, raw.len() as u32, &chunks))).unwrap();
    assert_eq!(img.data, vec![1, 2, 3, 4]);
    assert_eq!(img.tags.len(), 2);
    assert_eq!(img.tags.get(b"a"), Some(&b"zz".to_vec()));
    assert_eq!(img.tags.get(b"cd"), Some(&Vec::new()));
}

#[test]
fn raw_length_says_where_the_chunks_start() {
    let raw = raw_stream(&gray(1, 1, vec![1]));
    let mut padded = raw.clone();
    padded.extend_from_slice(b"tags\x04\x00\x00\x001:x=1:y,");
    let tagged = chunk(b"tags", b"1:k=1:v,");
    let mut rest = padded.clone();
    rest.extend_from_slice(&tagged);
    let img = load_tlg(ByteReader::new(&container(&rest, padded.len() as u32, &[]))).unwrap();
    assert_eq!(img.tags.len(), 1);
    assert_eq!(img.tags.get(b"k"), Some(&b"v".to_vec()));
    let none = load_tlg(ByteReader::new(&container(&raw, 10_000, &tagged))).unwrap();
    assert!(none.tags.is_empty());
}

#[test]
fn malformed_tags_end_the_reading_quietly() {
    let raw = raw_stream(&gray(1, 1, vec![1]));
    let after = chunk(b"tags", b"1:z=1:z,");
    // (payload, tags read from it, whether the chunk behind it is read)
    let cases: [(&[u8], usize, bool); 12] = [
        (b"1:a=1:b,12", 1, true),
        (b"1:a=1:b,2:c", 1, true),
        (b"1:a=1:b,2:cd", 1, true),
        (b"1:a=1:b,2:cd=", 1, true),
        (b"1:a=1:b,2:cd=3", 1, true),
        (b"1:a=1:b,1;c=1:d,", 1, false),
        (b"1:a=1:b,1:c-1:d,", 1, false),
        (b"1:a=1:b,1:c=1;d,", 1, false),
        (b"1:a=1:b,1:c=1:d", 1, false),
        (b"1:a=1:b,1:c=1:d;", 1, false),
        (b"1:a=1:b,1:c=5:d,", 1, false),
        (b":=:,00:=000:,", 1, true),
    ];
    for (payload, count, goes_on) in cases {
        let mut chunks = chunk(b"tags", payload);
        chunks.extend_from_slice(&after);
        let img = load_tlg(ByteReader::new(&container(&raw, raw.len() as u32, &chunks))).unwrap();
        assert_eq!(img.tags.len(), count + if goes_on { 1 } else { 0 });
        assert_eq!(img.tags.get(b"z").is_some(), goes_on);
    }
}

#[test]
fn tag_map_parse_and_serialize() {
    let mut tags = TagMap::new();
    assert!(tags.parse(b"3:abc=2:xy,0:=10:0123456789,"));
    assert_eq!(tags.len(), 2);
    assert_eq!(tags.get(b"abc"), Some(&b"xy".to_vec()));
    assert_eq!(tags.get(b""), Some(&b"0123456789".to_vec()));
    assert_eq!(tags.position(b"abc"), Some(0));
    assert_eq!(tags.position(b"abd"), None);
    assert_eq!(tags.serialize(), b"3:abc=2:xy,0:=10:0123456789,".to_vec());
    assert!(!tags.parse(b"1:q=1:r,x"));
    assert_eq!(tags.len(), 3);
    assert!(tags.parse(b"99999999999999999999999999999999:a=1:b,"));
    assert_eq!(tags.len(), 3);
}

#[test]
fn truncated_files_fail() {
    let raw = raw_stream(&gray(3, 5, vec![7; 15]));
    for n in 0..raw.len() {
        assert!(matches!(load_tlg(ByteReader::new(&raw[..n])), Err(TlgError::Io)));
    }
    let tagged = container(&raw, raw.len() as u32, &chunk(b"tags", b"1:a=1:b,"));
    for n in [12, 14, 15 + raw.len() + 4, 15 + raw.len() + 7, tagged.len() - 1] {
        assert!(matches!(load_tlg(ByteReader::new(&tagged[..n])), Err(TlgError::Io)));
    }
    assert!(load_tlg(ByteReader::new(&tagged[..15 + raw.len() + 3])).is_ok());
}

#[test]
fn unknown_signatures_fail() {
    assert!(matches!(load_tlg(ByteReader::new(&[0u8; 40])), Err(TlgError::InvalidFormat)));
    let nested = container(TLG0, 11, &[]);
    assert!(matches!(load_tlg(ByteReader::new(&nested)), Err(TlgError::InvalidFormat)));
    let mut r = ByteReader::new(b"TLG4.0\x00raw\x1a....");
    assert!(matches!(internal_load_tlg(&mut r), Err(TlgError::InvalidFormat)));
}

#[test]
fn header_errors() {
    let mut f = TLG5.to_vec();
    f.extend_from_slice(&[2, 1, 0, 0, 0, 1, 0, 0, 0, 4, 0, 0, 0]);
    match load_tlg(ByteReader::new(&f)) {
        Err(TlgError::UnsupportedColorType(2)) => {}
        other => panic!("{:?}", other),
    }
    let mut zero_height = vec![1u8, 1, 0, 0, 0, 0, 0, 0, 0, 4, 0, 0, 0];
    assert!(matches!(load_tlg5(&mut ByteReader::new(&zero_height)), Err(TlgError::InvalidFormat)));
    zero_height[5] = 1;
    zero_height[9] = 0;
    assert!(matches!(load_tlg5(&mut ByteReader::new(&zero_height)), Err(TlgError::InvalidFormat)));
}

#[test]
fn blocks_beyond_the_buffers_fail() {
    let mut f = TLG5.to_vec();
    f.extend_from_slice(&[1, 1, 0, 0, 0, 1, 0, 0, 0, 1, 0, 0, 0]);
    f.extend_from_slice(&[0, 0, 0, 0]);
    let mut too_long = f.clone();
    too_long.extend_from_slice(&[1, 12, 0, 0, 0]);
    too_long.extend_from_slice(&[0; 12]);
    assert!(matches!(load_tlg(ByteReader::new(&too_long)), Err(TlgError::IndexOutOfRange)));
    let mut fits = f.clone();
    fits.extend_from_slice(&[1, 11, 0, 0, 0]);
    fits.extend_from_slice(&[4; 11]);
    assert_eq!(load_tlg(ByteReader::new(&fits)).unwrap().data, vec![4]);
    let mut cut_token = f.clone();
    cut_token.extend_from_slice(&[0, 2, 0, 0, 0, 1, 0]);
    assert!(matches!(load_tlg(ByteReader::new(&cut_token)), Err(TlgError::IndexOutOfRange)));
    let mut packed = f.clone();
    packed.extend_from_slice(&[0, 2, 0, 0, 0, 0, 77]);
    assert_eq!(load_tlg(ByteReader::new(&packed)).unwrap().data, vec![77]);
}

#[test]
fn images_that_cannot_be_saved() {
    let mut w = ByteWriter::new();
    w.write_u8(1);
    let mut small = gray(3, 2, vec![0; 5]);
    match save_tlg(&small, &mut w) {
        Err(TlgError::EncodeError(m)) => {
            assert_eq!(m, "Image data size too small: expected 6, got 5")
        }
        other => panic!("{:?}", other),
    }
    small.version = 6;
    assert!(matches!(save_tlg(&small, &mut w), Err(TlgError::EncodeError(_))));
    let mut v6 = gray(1, 1, vec![0]);
    v6.version = 6;
    match save_tlg(&v6, &mut w) {
        Err(TlgError::EncodeError(m)) => assert_eq!(m, "Unsupported TLG version: 6"),
        other => panic!("{:?}", other),
    }
    v6.tags.insert(b"a".to_vec(), b"b".to_vec());
    v6.version = 0;
    match save_tlg(&v6, &mut w) {
        Err(TlgError::EncodeError(m)) => assert_eq!(m, "Unsupported TLG version: 0"),
        other => panic!("{:?}", other),
    }
    match save_tlg(&gray(5, 0, Vec::new()), &mut w) {
        Err(TlgError::EncodeError(m)) => assert_eq!(m, "Image height must not be 0"),
        other => panic!("{:?}", other),
    }
    assert_eq!(w.into_bytes(), vec![1]);
}

#[test]
fn save_appends_to_the_writer() {
    let img = gray(2, 1, vec![3, 4]);
    let mut w = ByteWriter::new();
    w.write_all(b"head");
    save_tlg(&img, &mut w).unwrap();
    let bytes = w.into_bytes();
    assert_eq!(&bytes[..4], b"head");
    assert_eq!(bytes[4..].to_vec(), raw_stream(&img));
}

#[test]
fn error_messages() {
    assert_eq!(TlgError::Io.message(), "IO Error: failed to fill whole buffer");
    assert_eq!(TlgError::InvalidFormat.message(), "Invalid TLG format");
    assert_eq!(TlgError::UnsupportedColorType(200).message(), "Unsupported color type: 200");
    assert_eq!(
        TlgError::UnsupportedCompressedMethod(3).message(),
        "Unsupported compressed method: 3"
    );
    assert_eq!(TlgError::IndexOutOfRange.message(), "Index out of range");
    assert_eq!(TlgError::EncodeError("a".to_string()).message(), "a");
    assert_eq!(TlgError::Str("b 0".to_string()).message(), "b 0");
}

#[test]
fn blue_and_red_change_places() {
    let mut img = Tlg {
        tags: TagMap::new(),
        version: 5,
        width: 2,
        height: 1,
        color: TlgColorType::Bgra32,
        data: vec![1, 2, 3, 4, 5, 6, 7, 8],
    };
    convert_bgr_to_rgb(&mut img);
    assert_eq!(img.data, vec![3, 2, 1, 4, 7, 6, 5, 8]);
    img.color = TlgColorType::Bgr24;
    img.data = vec![1, 2, 3, 4, 5, 6, 7, 8];
    convert_bgr_to_rgb(&mut img);
    assert_eq!(img.data, vec![3, 2, 1, 6, 5, 4, 7, 8]);
    img.color = TlgColorType::Grayscale8;
    convert_bgr_to_rgb(&mut img);
    assert_eq!(img.data, vec![3, 2, 1, 6, 5, 4, 7, 8]);
    img.color = TlgColorType::Bgra32;
    img.data = vec![1, 2, 3, 4, 5, 6, 7];
    convert_bgr_to_rgb(&mut img);
    assert_eq!(img.data, vec![3, 2, 1, 4, 7, 6, 5]);
    img.data = vec![1, 2];
    convert_bgr_to_rgb(&mut img);
    assert_eq!(img.data, vec![1, 2]);
}

#[test]
fn channel_counts() {
    assert_eq!(TlgColorType::Grayscale8.channels(), 1);
    assert_eq!(TlgColorType::Bgr24.channels(), 3);
    assert_eq!(TlgColorType::Bgra32.channels(), 4);
    assert_eq!(TlgColorType::from_channels(1), Some(TlgColorType::Grayscale8));
    assert_eq!(TlgColorType::from_channels(3), Some(TlgColorType::Bgr24));
    assert_eq!(TlgColorType::from_channels(4), Some(TlgColorType::Bgra32));
    assert_eq!(TlgColorType::from_channels(0), None);
    assert_eq!(TlgColorType::from_channels(2), None);
    assert_eq!(TlgColorType::from_channels(5), None);
}

#[test]
fn errors_from_messages() {
    assert!(matches!(TlgError::from("a b"), TlgError::Str(m) if m == "a b"));
    assert!(matches!(TlgError::from(String::from("cd")), TlgError::Str(m) if m == "cd"));
    assert!(matches!(TlgError::from(&String::from("e")), TlgError::Str(m) if m == "e"));
}

#[test]
fn record_sizes_in_a_stream() {
    // two rows of noise and two rows of zeros, 64 wide: the first channel
    // block is stored, and says so with the size of its rows
    let mut data = Vec::new();
    let mut x = 9u32;
    for _ in 0..128 {
        x = x.wrapping_mul(1664525).wrapping_add(1013904223);
        data.push((x >> 24) as u8);
    }
    data.extend_from_slice(&[0u8; 128]);
    let raw = raw_stream(&gray(64, 4, data));
    assert_eq!(&raw[11..24], &[1, 64, 0, 0, 0, 4, 0, 0, 0, 4, 0, 0, 0]);
    let record = &raw[28..];
    let size = u32::from_le_bytes([record[1], record[2], record[3], record[4]]) as usize;
    assert!(record[0] == 0 || record[0] == 1);
    assert!(size <= 256);
    assert_eq!(record.len(), 5 + size);
    assert_eq!(&raw[24..28], &((5 + size) as u32).to_le_bytes());
}
