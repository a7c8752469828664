use hack::hackword::HackWord;

#[test]
fn bitstring_to_hackword_and_back() {
    for (input, expected) in [
        ("0110000000000000", 0b0110000000000000),
        ("1111110000010000", i16::MIN | 0b0111110000010000),
    ] {
        let word: HackWord = HackWord::from_str(input).expect("Expected parse");

        assert_eq!(word.0, expected);

        let back = word.to_bit_string();

        assert_eq!(back, input);
    }
}

#[test]
fn signed_to_usize() {
    for (input, expected) in [
        (i16::MIN | 0b0111_1111_1111_1111, 0b1111_1111_1111_1111),
        (0, 0),
        (1, 1),
    ] {
        let word = HackWord(input);

        let res = word.to_usize();

        assert_eq!(res, expected)
    }
}

#[test]
fn bits() {
    for (input, bit) in [
        (i16::MIN, 0),
        (0b0100_0000_0000_0000, 1),
        (0b0000_0000_0000_0001, 15),
    ] {
        let word = HackWord(input);

        assert!(word.bit(bit))
    }
}

#[test]
fn format_then_parse_is_identity() {
    for w in [
        HackWord(0),
        HackWord(-1),
        HackWord(12345),
        HackWord(i16::MIN),
        HackWord(32767),
    ] {
        let text = w.to_bit_string();
        assert_eq!(text.len(), 16);
        assert_eq!(HackWord::from_str(&text).expect("parse"), w);
    }
}

#[test]
fn wrapping_arithmetic_wraps() {
    assert_eq!(HackWord(32767).wrapping_add(HackWord(1)), HackWord(i16::MIN));
    assert_eq!(HackWord(i16::MIN).wrapping_sub(HackWord(1)), HackWord(32767));
    assert_eq!(HackWord(i16::MIN).wrapping_neg(), HackWord(i16::MIN));
    assert_eq!(HackWord(5).and(HackWord(3)), HackWord(1));
    assert_eq!(HackWord(5).or(HackWord(2)), HackWord(7));
    assert_eq!(HackWord(0).not(), HackWord(-1));
}

#[test]
fn parse_rejects_bad_words() {
    assert!(HackWord::from_str("").is_err());
    assert!(HackWord::from_str("0120000000000000").is_err());
    assert!(HackWord::from_str("11111111111111111").is_err());
    assert_eq!(HackWord::from_str("101").unwrap(), HackWord(5));
    assert_eq!(HackWord::from_str("+101").unwrap(), HackWord(5));
}
