use zero_trim::trim_leading_zeros;

#[test]
fn trims_the_leading_zeros() {
    assert_eq!(trim_leading_zeros("0001.1.jpg"), "1.1.jpg");
    assert_eq!(trim_leading_zeros("0052.8.jpg"), "52.8.jpg");
}

#[test]
fn empty_stays_empty() {
    assert_eq!(trim_leading_zeros(""), "");
}

#[test]
fn zeros_alone_trim_to_empty() {
    assert_eq!(trim_leading_zeros("0"), "");
    assert_eq!(trim_leading_zeros("0000000"), "");
}

#[test]
fn no_leading_zero_is_unchanged() {
    assert_eq!(trim_leading_zeros("1.jpg"), "1.jpg");
    assert_eq!(trim_leading_zeros("a0001"), "a0001");
    assert_eq!(trim_leading_zeros(" 01"), " 01");
    assert_eq!(trim_leading_zeros(".000"), ".000");
}

#[test]
fn later_zeros_are_kept() {
    assert_eq!(trim_leading_zeros("00100.00"), "100.00");
    assert_eq!(trim_leading_zeros("0.0"), ".0");
    assert_eq!(trim_leading_zeros("0a0b0"), "a0b0");
}

#[test]
fn trimming_twice_is_trimming_once() {
    for name in ["", "0", "000", "0001.1.jpg", "52.8.jpg", "00a00", "0.0"] {
        let once = trim_leading_zeros(name);
        assert_eq!(trim_leading_zeros(once), once);
    }
}

#[test]
fn characters_beyond_ascii_are_kept() {
    assert_eq!(trim_leading_zeros("00\u{e9}t\u{e9}.txt"), "\u{e9}t\u{e9}.txt");
    assert_eq!(trim_leading_zeros("0\u{1f600}0"), "\u{1f600}0");
    assert_eq!(trim_leading_zeros("\u{e9}00"), "\u{e9}00");
}

#[test]
fn other_digits_and_zero_like_characters_are_not_trimmed() {
    assert_eq!(trim_leading_zeros("\u{660}1"), "\u{660}1");
    assert_eq!(trim_leading_zeros("\u{ff10}1"), "\u{ff10}1");
    assert_eq!(trim_leading_zeros("O01"), "O01");
}

#[test]
fn the_result_is_a_part_of_the_input() {
    let name = String::from("0007.png");
    let trimmed = trim_leading_zeros(&name);
    assert_eq!(trimmed.len(), 5);
    assert!(name.ends_with(trimmed));
}
