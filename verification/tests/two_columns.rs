use hayday_items::columns::{readFileData, split_words};

fn lines(v: &[&str]) -> Vec<String> {
    v.iter().map(|s| s.to_string()).collect()
}

#[test]
fn reads_two_columns() {
    let both = readFileData(lines(&["1 2", "  3\t-4 ", "5", "a b c", "", "+6   7"]));
    assert_eq!(both.arr1, vec![1, 3, 6]);
    assert_eq!(both.arr2, vec![2, -4, 7]);
}

#[test]
fn empty_input() {
    let both = readFileData(Vec::new());
    assert!(both.arr1.is_empty());
    assert!(both.arr2.is_empty());
}

#[test]
fn words_as_split_whitespace() {
    for s in ["  a  bb c ", "", "   ", "x", "\u{3000}x\u{85}y", "a\u{a0}b", "a\u{200b}b"] {
        let expected: Vec<String> = s.split_whitespace().map(|w| w.to_string()).collect();
        assert_eq!(split_words(s), expected);
    }
}
