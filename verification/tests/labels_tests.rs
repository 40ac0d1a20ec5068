use battleship_brain::labels::name_from_number;

fn label(n: usize) -> String {
    String::from_utf8(name_from_number(n)).unwrap()
}

#[test]
fn single_letter_labels() {
    assert_eq!(label(0), "A");
    assert_eq!(label(1), "B");
    assert_eq!(label(25), "Z");
}

#[test]
fn two_letter_labels() {
    assert_eq!(label(26), "AA");
    assert_eq!(label(27), "AB");
    assert_eq!(label(51), "AZ");
    assert_eq!(label(52), "BA");
    assert_eq!(label(701), "ZZ");
}

#[test]
fn three_letter_labels() {
    assert_eq!(label(702), "AAA");
    assert_eq!(label(703), "AAB");
}
