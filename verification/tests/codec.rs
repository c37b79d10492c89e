use imagetoh::frame::encode;
use imagetoh::frame::Bytes;
use imagetoh::frame::EncodeError;
use imagetoh::grid::PixelGrid;
use imagetoh::header::generate_header;
use imagetoh::header::FrameSet;
use imagetoh::header::OutputFormat;
use imagetoh::rle::compress;
use imagetoh::rle::expand;
use imagetoh::rle::RunStream;

fn grid(width: usize, height: usize, pixels: Vec<u8>) -> PixelGrid {
    PixelGrid::new(width, height, pixels).expect("pixel count must match dimensions")
}

#[test]
fn encode_three_by_two_example() {
    let g = grid(3, 2, vec![1, 0, 1, 0, 1, 0]);
    let f = encode(&g).unwrap();
    assert_eq!(f.0, vec![0x03, 0x02, 0xA0, 0x40]);
}

#[test]
fn encode_binarizes_any_nonzero_value() {
    let g = grid(3, 2, vec![255, 0, 7, 0, 90, 0]);
    let f = encode(&g).unwrap();
    assert_eq!(f.0, vec![0x03, 0x02, 0xA0, 0x40]);
}

#[test]
fn encode_all_white_sixteen_by_one() {
    let g = grid(16, 1, vec![1; 16]);
    let f = encode(&g).unwrap();
    assert_eq!(f.0, vec![0x10, 0x01, 0xFF, 0xFF]);
}

#[test]
fn compress_all_white_sixteen_by_one() {
    let g = grid(16, 1, vec![1; 16]);
    let f = encode(&g).unwrap();
    let rs = compress(&f);
    assert_eq!(rs.0, vec![0x10, 0x01, 0x00, 0x00, 0x00, 0x01, 0x8F]);
}

#[test]
fn roundtrip_extracts_original_pixels() {
    let width = 5;
    let height = 3;
    let pixels = vec![
        1, 0, 0, 1, 1, //
        0, 1, 0, 0, 1, //
        1, 1, 1, 0, 0,
    ];
    let g = grid(width, height, pixels.clone());
    let f = encode(&g).unwrap();
    let bpr = (width + 7) / 8;
    for y in 0..height {
        for x in 0..width {
            let byte = f.0[2 + y * bpr + x / 8];
            let bit = (byte >> (7 - (x % 8))) & 1;
            let expected = if pixels[y * width + x] != 0 { 1 } else { 0 };
            assert_eq!(bit, expected);
        }
    }
}

#[test]
fn row_padding_bits_are_zero() {
    let g = grid(3, 2, vec![1, 1, 1, 1, 1, 1]);
    let f = encode(&g).unwrap();
    // width 3: the low 5 bits of each row byte are padding
    assert_eq!(f.0[2] & 0x1F, 0);
    assert_eq!(f.0[3] & 0x1F, 0);
}

#[test]
fn row_bytes_do_not_depend_on_other_rows() {
    let a = grid(3, 2, vec![1, 0, 1, 0, 0, 0]);
    let b = grid(3, 2, vec![1, 0, 1, 1, 1, 1]);
    let fa = encode(&a).unwrap();
    let fb = encode(&b).unwrap();
    // row 0 agrees, so its payload byte agrees whatever row 1 holds
    assert_eq!(fa.0[2], fb.0[2]);
    assert_ne!(fa.0[3], fb.0[3]);
}

#[test]
fn payload_length_matches_dimensions() {
    for (w, h) in [(1, 1), (3, 2), (8, 4), (9, 5), (16, 1), (255, 2)] {
        let g = grid(w, h, vec![0; w * h]);
        let f = encode(&g).unwrap();
        assert_eq!(f.0.len(), 2 + h * ((w + 7) / 8));
    }
}

#[test]
fn rle_roundtrip_reproduces_padded_bits() {
    let pixels = vec![
        1, 1, 0, 0, 1, 0, 1, 0, 0, //
        0, 0, 0, 1, 1, 1, 1, 0, 1,
    ];
    let g = grid(9, 2, pixels);
    let f = encode(&g).unwrap();
    let rs = compress(&f);
    assert_eq!(expand(&rs), f.bits());
}

#[test]
fn run_lengths_stay_in_bounds() {
    let g = grid(40, 8, vec![1; 320]);
    let f = encode(&g).unwrap();
    let rs = compress(&f);
    let count = u32::from_be_bytes([rs.0[2], rs.0[3], rs.0[4], rs.0[5]]) as usize;
    assert_eq!(rs.0.len(), 6 + count);
    let mut total = 0usize;
    for &run in &rs.0[6..] {
        let len = (run & 0x7F) as usize + 1;
        assert!((1..=128).contains(&len));
        total += len;
    }
    assert_eq!(total, f.bits().len());
}

#[test]
fn run_cap_splits_long_runs_and_final_run_is_emitted() {
    // 17 all-white payload bytes: 136 equal bits become runs of 128 and 8
    let f = Bytes(vec![0x08, 0x11, 0xFF, 0xFF, 0xFF, 0xFF, 0xFF, 0xFF, 0xFF, 0xFF, 0xFF,
        0xFF, 0xFF, 0xFF, 0xFF, 0xFF, 0xFF, 0xFF, 0xFF]);
    let rs = compress(&f);
    assert_eq!(rs.0, vec![0x08, 0x11, 0x00, 0x00, 0x00, 0x02, 0xFF, 0x87]);
}

#[test]
fn compress_zero_width_frame_emits_no_runs() {
    let g = grid(0, 5, vec![]);
    let f = encode(&g).unwrap();
    assert_eq!(f.0, vec![0x00, 0x05]);
    let rs = compress(&f);
    assert_eq!(rs.0, vec![0x00, 0x05, 0x00, 0x00, 0x00, 0x00]);
}

#[test]
fn compress_zero_height_frame_emits_no_runs() {
    let g = grid(7, 0, vec![]);
    let f = encode(&g).unwrap();
    let rs = compress(&f);
    assert_eq!(rs.0, vec![0x07, 0x00, 0x00, 0x00, 0x00, 0x00]);
}

#[test]
fn encode_rejects_wide_grid() {
    let g = grid(256, 1, vec![0; 256]);
    assert!(matches!(encode(&g), Err(EncodeError::DimensionTooLarge)));
}

#[test]
fn encode_rejects_tall_grid() {
    let g = grid(1, 300, vec![0; 300]);
    assert!(matches!(encode(&g), Err(EncodeError::DimensionTooLarge)));
}

#[test]
fn grid_new_rejects_mismatched_pixel_count() {
    assert!(PixelGrid::new(3, 2, vec![0; 5]).is_none());
}

#[test]
fn bits_are_most_significant_first() {
    let f = Bytes(vec![0x01, 0x01, 0xA0]);
    assert_eq!(f.bits(), vec![1, 0, 1, 0, 0, 0, 0, 0]);
}

#[test]
fn expand_concrete_stream() {
    let rs = RunStream(vec![0x10, 0x01, 0x00, 0x00, 0x00, 0x01, 0x8F]);
    assert_eq!(expand(&rs), vec![1; 16]);
}

#[test]
fn header_for_one_frame() {
    let frames = vec![Bytes(vec![0x03, 0x02, 0xA0, 0x40])];
    let header = generate_header(frames);
    assert_eq!(
        header,
        "const uint8_t PROGMEM image_frames[] =\n{ 0x03, 0x02, 0xa0, 0x40 };"
    );
}

#[test]
fn header_for_no_frames() {
    let header = generate_header(Vec::new());
    assert_eq!(header, "const uint8_t PROGMEM image_frames[] =\n{  };");
}

#[test]
fn header_wraps_after_sixteen_values() {
    let frames = vec![Bytes(vec![
        0x00, 0x01, 0x02, 0x03, 0x04, 0x05, 0x06, 0x07, 0x08, 0x09, 0x0A, 0x0B, 0x0C, 0x0D,
        0x0E, 0x0F, 0x10,
    ])];
    let header = generate_header(frames);
    let expected = "const uint8_t PROGMEM image_frames[] =\n{ 0x00, 0x01, 0x02, 0x03, 0x04, 0x05, 0x06, 0x07, 0x08, 0x09, 0x0a, 0x0b, 0x0c, 0x0d, 0x0e, 0x0f,\n  0x10 };";
    assert_eq!(header, expected);
}

#[test]
fn frame_set_serializes_in_append_order() {
    let mut set = FrameSet::new();
    set.append(Bytes(vec![0x01, 0x01, 0x80]));
    set.append(Bytes(vec![0x02, 0x01, 0x40]));
    let header = set.serialize(OutputFormat::Raw);
    assert_eq!(
        header,
        "const uint8_t PROGMEM image_frames[] =\n{ 0x01, 0x01, 0x80, 0x02, 0x01, 0x40 };"
    );
}

#[test]
fn frame_set_serializes_run_length_streams() {
    let g = grid(16, 1, vec![1; 16]);
    let mut set = FrameSet::new();
    set.append(encode(&g).unwrap());
    let header = set.serialize(OutputFormat::RunLength);
    assert_eq!(
        header,
        "const uint8_t PROGMEM image_frames[] =\n{ 0x10, 0x01, 0x00, 0x00, 0x00, 0x01, 0x8f };"
    );
}
