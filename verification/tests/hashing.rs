use workout_gpx_rs::ParseError;
use workout_gpx_rs::decode_hex;
use workout_gpx_rs::digest_decimal;

#[test]
fn decode_hex_chunks_of_eight() {
    let digest = "2cf24dba5fb0a30e26e83b2ac5b9e29e1b161e5c1fa7425e73043362938b9824";
    assert_eq!(
        decode_hex(digest, 8),
        Ok(vec![
            754077114, 1605411598, 652753706, 3317293726, 454434396, 531055198, 1929655138,
            2475399204,
        ])
    );
}

#[test]
fn decode_hex_single_digits() {
    assert_eq!(decode_hex("ff00Aa", 2), Ok(vec![255, 0, 170]));
    assert_eq!(decode_hex("0", 1), Ok(vec![0]));
    assert_eq!(decode_hex("", 4), Ok(vec![]));
}

#[test]
fn decode_hex_rejects_non_hex() {
    assert_eq!(decode_hex("zz", 2), Err(ParseError::BadNumber));
    assert_eq!(decode_hex("12g4", 2), Err(ParseError::BadNumber));
}

#[test]
fn decode_hex_rejects_oversized_chunk() {
    // nine hex digits exceed a u32
    assert_eq!(decode_hex("100000000", 9), Err(ParseError::BadNumber));
}

#[test]
fn digest_decimal_of_hello() {
    // sha256("hello"), its eight 8-digit hex chunks as decimal text
    assert_eq!(
        digest_decimal("hello").as_deref(),
        Ok("7540771141605411598652753706331729372645443439653105519819296551382475399204")
    );
}
