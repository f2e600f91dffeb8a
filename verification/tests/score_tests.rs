use xor_breaker::score::calc_char_frequencies;
use xor_breaker::score::score_buffer_as_text;

#[test]
fn score_empty_buffer_is_zero() {
    assert_eq!(0, score_buffer_as_text(&[]));
}

#[test]
fn score_single_e_exact() {
    // one byte 'e': observed frequency 1, expected 0.12700, so the score
    // is isqrt(12700 * 100000) = 35637, in hundred-thousandths.
    assert_eq!(35637, score_buffer_as_text(b"e"));
}

#[test]
fn score_single_control_byte_is_negative() {
    // one control byte: no letter similarity, one penalty step of 1000.
    assert_eq!(-1000, score_buffer_as_text(&[0x00]));
}

#[test]
fn score_is_deterministic() {
    let samples: Vec<Vec<u8>> = vec![
        b"Cooking MC's like a pound of bacon".to_vec(),
        vec![0x00, 0x41, 0x9f, 0x7a],
        Vec::new(),
    ];
    for s in &samples {
        let first = score_buffer_as_text(s);
        for _ in 0..3usize {
            assert_eq!(first, score_buffer_as_text(s));
        }
    }
}

#[test]
fn score_folds_case() {
    // case folding happens before the table lookup, so a shouting copy
    // of a text scores exactly like the lowercase one.
    assert_eq!(
        score_buffer_as_text(b"the quick brown fox"),
        score_buffer_as_text(b"THE QUICK BROWN FOX")
    );
}

#[test]
fn score_penalty_monotone_in_control_count() {
    // holding the rest of the buffer fixed, each extra control character
    // lowers the score by at least the full penalty step.
    let mut buf = b"Now that the party is jumping".to_vec();
    let mut prev = score_buffer_as_text(&buf);
    for i in 0..5usize {
        buf.push(if i % 2 == 0 { 0x01 } else { 0x90 });
        let next = score_buffer_as_text(&buf);
        assert!(next <= prev - 1000);
        prev = next;
    }
}

#[test]
fn char_frequencies_count_bytes() {
    let m = calc_char_frequencies(b"abcaba");
    assert_eq!(Some(&3u32), m.get(&b'a'));
    assert_eq!(Some(&2u32), m.get(&b'b'));
    assert_eq!(Some(&1u32), m.get(&b'c'));
    assert_eq!(None, m.get(&b'd'));
    assert_eq!(3, m.len());
    assert!(calc_char_frequencies(&[]).is_empty());
}
