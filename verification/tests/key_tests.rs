use pakmod::errors::KeyError;
use pakmod::keys::parse_key;

fn sample_hex() -> String {
    let mut s = String::new();
    for i in 0..32 {
        s.push_str(&format!("{:02x}", i * 0x11 % 256));
    }
    s
}

#[test]
fn a_plain_64_digit_key_decodes_to_32_bytes() {
    let key = parse_key(&sample_hex()).unwrap();
    assert_eq!(key.len(), 32);
    assert_eq!(key[0], 0x00);
    assert_eq!(key[1], 0x11);
    assert_eq!(key[15], 0xff);
}

#[test]
fn the_0x_prefix_is_accepted() {
    let with = parse_key(&format!("0x{}", sample_hex())).unwrap();
    let without = parse_key(&sample_hex()).unwrap();
    assert_eq!(with, without);
}

#[test]
fn upper_and_lower_case_digits_agree() {
    let lower = parse_key(&sample_hex()).unwrap();
    let upper = parse_key(&sample_hex().to_uppercase()).unwrap();
    assert_eq!(lower, upper);
}

#[test]
fn wrong_lengths_are_rejected() {
    assert_eq!(parse_key(""), Err(KeyError::WrongLength));
    assert_eq!(parse_key("0x"), Err(KeyError::WrongLength));
    assert_eq!(parse_key("abcd"), Err(KeyError::WrongLength));
    let long = format!("{}00", sample_hex());
    assert_eq!(parse_key(&long), Err(KeyError::WrongLength));
}

#[test]
fn non_hex_digits_are_rejected() {
    let mut bad = sample_hex();
    bad.replace_range(10..11, "g");
    assert_eq!(parse_key(&bad), Err(KeyError::BadDigit));
}
