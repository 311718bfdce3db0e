use similar_lib::script::{diff_chars, EditOp, OpTag};

fn op(tag: OpTag, unit: char) -> EditOp {
    EditOp { tag, unit }
}

#[test]
fn self_diff_is_all_equal_in_order() {
    let ops = diff_chars("hello", "hello");
    let expected: Vec<EditOp> = "hello".chars().map(|c| op(OpTag::Equal, c)).collect();
    assert_eq!(ops, expected);
}

#[test]
fn self_diff_of_empty_text_is_empty() {
    assert!(diff_chars("", "").is_empty());
}

#[test]
fn diff_of_one_replaced_char() {
    let ops = diff_chars("abc", "axc");
    assert_eq!(
        ops,
        vec![
            op(OpTag::Equal, 'a'),
            op(OpTag::Delete, 'b'),
            op(OpTag::Insert, 'x'),
            op(OpTag::Equal, 'c'),
        ]
    );
}

#[test]
fn diff_accounts_for_both_texts() {
    let old_text = "#JohnDoe";
    let new_text = "hi, #John";
    let ops = diff_chars(old_text, new_text);
    let old_side: String = ops.iter().filter(|o| o.tag != OpTag::Insert).map(|o| o.unit).collect();
    let new_side: String = ops.iter().filter(|o| o.tag != OpTag::Delete).map(|o| o.unit).collect();
    assert_eq!(old_side, old_text);
    assert_eq!(new_side, new_text);
}

#[test]
fn diff_from_empty_inserts_everything() {
    let ops = diff_chars("", "ab");
    assert_eq!(ops, vec![op(OpTag::Insert, 'a'), op(OpTag::Insert, 'b')]);
}

#[test]
fn diff_to_empty_deletes_everything() {
    let ops = diff_chars("ab", "");
    assert_eq!(ops, vec![op(OpTag::Delete, 'a'), op(OpTag::Delete, 'b')]);
}

#[test]
fn diff_splits_multibyte_chars() {
    let ops = diff_chars("é€", "é€");
    assert_eq!(ops, vec![op(OpTag::Equal, 'é'), op(OpTag::Equal, '€')]);
}
