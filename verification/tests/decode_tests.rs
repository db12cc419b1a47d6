use ppm_decoder::decode::decode;
use ppm_decoder::error::{PpmError, Separator};
use ppm_decoder::image::PpmImage;

fn input(header: &str, raster: &[u8]) -> Vec<u8> {
    let mut v = header.as_bytes().to_vec();
    v.extend_from_slice(raster);
    v
}

#[test]
fn decodes_basic_image() {
    let raster: Vec<u8> = (0..18).collect();
    let bytes = input("P6 3 2 255 ", &raster);
    let img = decode(&bytes).unwrap();
    assert_eq!(img.width(), 3);
    assert_eq!(img.height(), 2);
    assert_eq!(img.max_value(), 255);
    assert_eq!(img.raster(), &raster);
}

#[test]
fn two_byte_samples_need_twice_the_bytes() {
    let raster: Vec<u8> = (0..18).collect();
    let bytes = input("P6 3 2 65535 ", &raster);
    assert_eq!(decode(&bytes).err().unwrap(), PpmError::UnexpectedEOF);
}

#[test]
fn two_byte_samples_full_raster() {
    let raster: Vec<u8> = (0..36).collect();
    let bytes = input("P6 3 2 65535 ", &raster);
    let img = decode(&bytes).unwrap();
    assert_eq!(img.width(), 3);
    assert_eq!(img.height(), 2);
    assert_eq!(img.max_value(), 65535);
    assert_eq!(img.raster(), &raster);
}

#[test]
fn max_value_one_succeeds() {
    let bytes = input("P6 1 1 1 ", &[7, 8, 9]);
    let img = decode(&bytes).unwrap();
    assert_eq!(img.max_value(), 1);
    assert_eq!(img.raster(), &vec![7, 8, 9]);
}

#[test]
fn max_value_65535_succeeds() {
    let bytes = input("P6 1 1 65535 ", &[1, 2, 3, 4, 5, 6]);
    let img = decode(&bytes).unwrap();
    assert_eq!(img.max_value(), 65535);
    assert_eq!(img.raster().len(), 6);
}

#[test]
fn max_value_zero_is_illegal() {
    let bytes = input("P6 1 1 0 ", &[1, 2, 3]);
    assert_eq!(
        decode(&bytes).err().unwrap(),
        PpmError::IllegalValue { value: 0, min: 1, max: 65535 }
    );
}

#[test]
fn max_value_above_65535_is_illegal() {
    let bytes = input("P6 1 1 65536 ", &[1, 2, 3]);
    assert_eq!(
        decode(&bytes).err().unwrap(),
        PpmError::IllegalValue { value: 65536, min: 1, max: 65535 }
    );
}

#[test]
fn max_value_beyond_u32_fails_to_parse() {
    let bytes = input("P6 1 1 4294967296 ", &[1, 2, 3]);
    assert_eq!(decode(&bytes).err().unwrap(), PpmError::Parse);
}

#[test]
fn wrong_signature_is_rejected() {
    let raster: Vec<u8> = (0..18).collect();
    let bytes = input("P5 3 2 255 ", &raster);
    assert_eq!(decode(&bytes).err().unwrap(), PpmError::IncorrectSignature);
    let bytes = input("Q6 3 2 255 ", &raster);
    assert_eq!(decode(&bytes).err().unwrap(), PpmError::IncorrectSignature);
}

#[test]
fn short_input_is_eof_not_signature() {
    assert_eq!(decode(&vec![]).err().unwrap(), PpmError::UnexpectedEOF);
    assert_eq!(decode(&vec![b'P']).err().unwrap(), PpmError::UnexpectedEOF);
}

#[test]
fn every_truncation_before_raster_end_is_eof() {
    let raster: Vec<u8> = (0..18).collect();
    let bytes = input("P6 3 2 255 ", &raster);
    for j in 0..bytes.len() {
        let prefix = bytes[..j].to_vec();
        assert_eq!(decode(&prefix).err().unwrap(), PpmError::UnexpectedEOF);
    }
    assert!(decode(&bytes).is_ok());
}

#[test]
fn extra_whitespace_between_separator_and_token_is_tolerated() {
    let raster: Vec<u8> = (0..18).collect();
    let bytes = input("P6  \t\n3 \r 2   255 ", &raster);
    let img = decode(&bytes).unwrap();
    assert_eq!(img.width(), 3);
    assert_eq!(img.height(), 2);
    assert_eq!(img.max_value(), 255);
    assert_eq!(img.raster(), &raster);
}

#[test]
fn missing_whitespace_after_signature_is_incorrect_format() {
    let raster: Vec<u8> = (0..18).collect();
    let bytes = input("P63 2 255 ", &raster);
    assert_eq!(
        decode(&bytes).err().unwrap(),
        PpmError::IncorrectFormat(Separator::AfterSignature)
    );
}

#[test]
fn non_utf8_token_is_string_conversion_error() {
    let mut bytes = b"P6 ".to_vec();
    bytes.push(0xff);
    bytes.extend_from_slice(b" 2 255 ");
    bytes.extend_from_slice(&[0; 18]);
    assert_eq!(decode(&bytes).err().unwrap(), PpmError::StringConversion);
}

#[test]
fn non_decimal_token_is_parse_error() {
    let bytes = input("P6 a 2 255 ", &[0; 18]);
    assert_eq!(decode(&bytes).err().unwrap(), PpmError::Parse);
}

#[test]
fn lone_plus_token_is_parse_error() {
    let bytes = input("P6 + 2 255 ", &[0; 18]);
    assert_eq!(decode(&bytes).err().unwrap(), PpmError::Parse);
}

#[test]
fn plus_prefixed_token_parses() {
    let raster: Vec<u8> = (0..18).collect();
    let bytes = input("P6 +3 2 255 ", &raster);
    let img = decode(&bytes).unwrap();
    assert_eq!(img.width(), 3);
}

#[test]
fn trailing_bytes_after_raster_are_ignored() {
    let bytes = input("P6 1 1 255 ", &[10, 20, 30, 99, 98, 97, 96]);
    let img = decode(&bytes).unwrap();
    assert_eq!(img.raster(), &vec![10, 20, 30]);
}

#[test]
fn zero_width_gives_empty_raster() {
    let bytes = input("P6 0 5 255 ", &[]);
    let img = decode(&bytes).unwrap();
    assert_eq!(img.width(), 0);
    assert_eq!(img.height(), 5);
    assert!(img.raster().is_empty());
}

#[test]
fn decode_is_pure() {
    let raster: Vec<u8> = (0..18).collect();
    let bytes = input("P6 3 2 255 ", &raster);
    let a = decode(&bytes).unwrap();
    let b = decode(&bytes).unwrap();
    assert_eq!(a.width(), b.width());
    assert_eq!(a.height(), b.height());
    assert_eq!(a.max_value(), b.max_value());
    assert_eq!(a.raster(), b.raster());

    let bad = input("P6 3 2 0 ", &raster);
    assert_eq!(decode(&bad).err().unwrap(), decode(&bad).err().unwrap());
}

#[test]
fn new_assembles_image_from_parts() {
    let img = PpmImage::new(2, 2, 255, vec![5; 12]);
    assert_eq!(img.width(), 2);
    assert_eq!(img.height(), 2);
    assert_eq!(img.max_value(), 255);
    assert_eq!(img.raster(), &vec![5; 12]);
}
