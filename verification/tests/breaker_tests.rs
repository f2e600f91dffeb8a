use xor_breaker::XorError;
use xor_breaker::breaker::break_single_xor;
use xor_breaker::breaker::detect_single_xor_cipher;
use xor_breaker::breaker::top_candidate;
use xor_breaker::hex::decode_hex;
use xor_breaker::hex::encode_hex;
use xor_breaker::rank::RankedSet;
use xor_breaker::rank::WeightedData;
use xor_breaker::xor::single_xor;

#[test]
fn test_break_single_cipher() {
    let decoded =
        decode_hex(b"1b37373331363f78151b7f2b783431333d78397828372d363c78373e783a393b3736")
            .unwrap();
    let possible_keys = break_single_xor(&decoded);
    let key = possible_keys.peek().unwrap().data;
    let res = single_xor(&decoded, key);
    assert_eq!(
        String::from("Cooking MC's like a pound of bacon").into_bytes(),
        res
    );
}

#[test]
fn top_candidate_agrees_with_break() {
    let decoded =
        decode_hex(b"1b37373331363f78151b7f2b783431333d78397828372d363c78373e783a393b3736")
            .unwrap();
    let heap = break_single_xor(&decoded);
    let top = heap.peek().unwrap();
    let (key, score) = top_candidate(&decoded);
    assert_eq!(top.data, key);
    assert_eq!(top.weight, score);
}

#[test]
fn break_searches_exactly_254_keys() {
    let heap = break_single_xor(b"anything");
    assert_eq!(254, heap.len());
}

#[test]
fn ranked_set_peek_prefers_greatest_weight() {
    let mut s: RankedSet<u8> = RankedSet::new();
    assert!(s.peek().is_none());
    s.push(WeightedData { weight: 10, data: 1 });
    s.push(WeightedData { weight: 30, data: 2 });
    s.push(WeightedData { weight: 20, data: 3 });
    let top = s.peek().unwrap();
    assert_eq!(30, top.weight);
    assert_eq!(2, top.data);
}

#[test]
fn ranked_set_peek_breaks_ties_by_insertion_order() {
    let mut s: RankedSet<u8> = RankedSet::new();
    s.push(WeightedData { weight: 5, data: 7 });
    s.push(WeightedData { weight: 9, data: 8 });
    s.push(WeightedData { weight: 9, data: 9 });
    assert_eq!(8, s.peek().unwrap().data);
}

#[test]
fn detect_empty_batch_is_an_error() {
    assert_eq!(Err(XorError::EmptyBatch), detect_single_xor_cipher(Vec::new()));
}

#[test]
fn detect_reports_first_malformed_line() {
    let batch: Vec<Vec<u8>> = vec![b"6162".to_vec(), b"61zz".to_vec(), b"616".to_vec()];
    assert_eq!(Err(XorError::MalformedHex(1)), detect_single_xor_cipher(batch));
}

// A fixed linear congruential generator, so the batch below is the same
// on every run.
fn next_noise(state: &mut u64) -> u8 {
    *state = state
        .wrapping_mul(6364136223846793005)
        .wrapping_add(1442695040888963407);
    (*state >> 33) as u8
}

#[test]
fn detect_finds_planted_line() {
    let plain = b"Now that the party is jumping!".to_vec();
    let key: u8 = 0x35;
    let planted = encode_hex(&single_xor(&plain, key));

    let mut state: u64 = 0x00c0ffee;
    let mut batch: Vec<Vec<u8>> = Vec::new();
    for i in 0..300usize {
        if i == 157 {
            batch.push(planted.clone());
        } else {
            let mut noise: Vec<u8> = Vec::new();
            for _ in 0..plain.len() {
                noise.push(next_noise(&mut state));
            }
            batch.push(encode_hex(&noise));
        }
    }
    let (recovered, score) = detect_single_xor_cipher(batch).unwrap();
    assert_eq!(plain, recovered);
    assert!(score > 0);
}
