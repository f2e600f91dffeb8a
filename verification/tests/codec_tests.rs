use xor_breaker::XorError;
use xor_breaker::hex::decode_hex;
use xor_breaker::hex::encode_hex;
use xor_breaker::xor::coll_xor;
use xor_breaker::xor::single_xor;

#[test]
fn hex_simple() {
    assert_eq!(String::from("ab").into_bytes(), decode_hex(b"6162").unwrap());
}

#[test]
fn hex_longer() {
    assert_eq!(
        String::from("I'm killing your brain like a poisonous mushroom").into_bytes(),
        decode_hex(b"49276d206b696c6c696e6720796f757220627261696e206c696b65206120706f69736f6e6f7573206d757368726f6f6d").unwrap()
    );
}

#[test]
fn hex_enc_simple() {
    assert_eq!(
        String::from("49276d206b696c6c696e6720796f757220627261696e206c696b65206120706f69736f6e6f7573206d757368726f6f6d").into_bytes(),
        encode_hex(b"I'm killing your brain like a poisonous mushroom")
    );
}

#[test]
fn hex_enc_zero_pads_small_bytes() {
    assert_eq!(b"0500ff".to_vec(), encode_hex(&[0x05, 0x00, 0xff]));
}

#[test]
fn hex_enc_single_byte_is_two_digits() {
    let mut b: u8 = 0;
    loop {
        assert_eq!(2, encode_hex(&[b]).len());
        if b == 255 {
            break;
        }
        b += 1;
    }
}

#[test]
fn hex_round_trip_all_byte_values() {
    let mut all: Vec<u8> = Vec::new();
    let mut b: u8 = 0;
    loop {
        all.push(b);
        if b == 255 {
            break;
        }
        b += 1;
    }
    assert_eq!(all, decode_hex(&encode_hex(&all)).unwrap());
    assert_eq!(Vec::<u8>::new(), decode_hex(&encode_hex(&[])).unwrap());
    let sample = b"Cooking MC's like a pound of bacon".to_vec();
    assert_eq!(sample, decode_hex(&encode_hex(&sample)).unwrap());
}

#[test]
fn hex_decode_accepts_uppercase() {
    assert_eq!(vec![0xab, 0xcd, 0xef], decode_hex(b"ABcdEF").unwrap());
}

#[test]
fn hex_decode_rejects_odd_length() {
    assert_eq!(Err(XorError::MalformedHex(3)), decode_hex(b"616"));
}

#[test]
fn hex_decode_rejects_non_digit() {
    assert_eq!(Err(XorError::MalformedHex(1)), decode_hex(b"6g62"));
    assert_eq!(Err(XorError::MalformedHex(0)), decode_hex(b" 162"));
}

#[test]
fn single_xor_known_vector() {
    assert_eq!(vec![0x14, 0x17, 0x19], single_xor(&[0x41, 0x42, 0x4c], 0x55));
}

#[test]
fn single_xor_involution() {
    let buffers: Vec<Vec<u8>> = vec![
        Vec::new(),
        b"hello world".to_vec(),
        vec![0x00, 0xff, 0x7f, 0x80],
    ];
    let keys: Vec<u8> = vec![1, 0x35, 0x5c, 254];
    for buf in &buffers {
        for &k in &keys {
            assert_eq!(*buf, single_xor(&single_xor(buf, k), k));
        }
    }
}

#[test]
fn collection_xor_bad_input() {
    assert_eq!(
        Err(XorError::LengthMismatch),
        coll_xor(
            &[0, 1, 0],
            &decode_hex(b"746865206b696420646f6e277420706c6179").unwrap()
        )
    );
}

#[test]
fn collection_xor() {
    assert_eq!(
        Ok(decode_hex(b"1c0111001f010100061a024b53535009181c").unwrap()),
        coll_xor(
            &decode_hex(b"686974207468652062756c6c277320657965").unwrap(),
            &decode_hex(b"746865206b696420646f6e277420706c6179").unwrap()
        )
    );
}
