use similar_lib::annotation::{
    build_highlight_index, remap_positions, update_highlight_index, AnnotationIndex, IndexError,
};
use similar_lib::script::{diff_chars, EditOp, OpTag};

const ID: u128 = 0x1234_5678_9abc_def0_1234_5678_9abc_def0;

fn positions(index: &AnnotationIndex, id: u128) -> Option<Vec<usize>> {
    index.get(id).cloned()
}

#[test]
fn build_finds_every_single_char_match() {
    let index = build_highlight_index("aaa", "a", ID).unwrap();
    assert_eq!(positions(&index, ID), Some(vec![0, 1, 2]));
}

#[test]
fn build_finds_overlapping_matches() {
    let index = build_highlight_index("aaa", "aa", ID).unwrap();
    assert_eq!(positions(&index, ID), Some(vec![0, 1, 2]));
}

#[test]
fn build_unions_separate_matches() {
    let index = build_highlight_index("ab_ab_a", "ab", ID).unwrap();
    assert_eq!(positions(&index, ID), Some(vec![0, 1, 3, 4]));
}

#[test]
fn build_counts_chars_not_bytes() {
    let index = build_highlight_index("é#Jé", "#J", ID).unwrap();
    assert_eq!(positions(&index, ID), Some(vec![1, 2]));
}

#[test]
fn build_whole_name() {
    let index = build_highlight_index("#JohnDoe", "#JohnDoe", ID).unwrap();
    assert_eq!(positions(&index, ID), Some((0..8).collect()));
}

#[test]
fn build_without_match_is_empty() {
    let index = build_highlight_index("abc", "z", ID).unwrap();
    assert_eq!(positions(&index, ID), None);
}

#[test]
fn build_pattern_longer_than_text_is_empty() {
    let index = build_highlight_index("ab", "abc", ID).unwrap();
    assert_eq!(positions(&index, ID), None);
}

#[test]
fn build_rejects_empty_pattern() {
    assert_eq!(build_highlight_index("abc", "", ID).unwrap_err(), IndexError::EmptyPattern);
}

#[test]
fn remap_keeps_prefix_only() {
    let index = build_highlight_index("abc", "ab", ID).unwrap();
    assert_eq!(positions(&index, ID), Some(vec![0, 1]));
    let updated = update_highlight_index("abc", "axc", &index);
    assert_eq!(positions(&updated, ID), Some(vec![0]));
}

#[test]
fn remap_identity_on_unchanged_text() {
    let text = "hello world";
    let index = build_highlight_index(text, "world", ID).unwrap();
    let updated = update_highlight_index(text, text, &index);
    assert_eq!(positions(&updated, ID), Some(vec![6, 7, 8, 9, 10]));
    assert_eq!(positions(&updated, ID), positions(&index, ID));
}

#[test]
fn remap_total_loss() {
    let index = build_highlight_index("abc", "abc", ID).unwrap();
    let updated = update_highlight_index("abc", "xyz", &index);
    assert_eq!(positions(&updated, ID), None);
}

#[test]
fn remap_is_deterministic() {
    let index = build_highlight_index("#JohnDoe", "#JohnDoe", ID).unwrap();
    let first = update_highlight_index("#JohnDoe", "hi, #John", &index);
    let second = update_highlight_index("#JohnDoe", "hi, #John", &index);
    assert_eq!(positions(&first, ID), positions(&second, ID));
}

#[test]
fn remap_name_into_greeting() {
    let index = build_highlight_index("#JohnDoe", "#JohnDoe", ID).unwrap();
    let updated = update_highlight_index("#JohnDoe", "hi, #John", &index);
    let script = diff_chars("#JohnDoe", "hi, #John");
    let first = script
        .iter()
        .position(|o| o.tag == OpTag::Equal && o.unit == '#')
        .unwrap();
    assert_eq!(positions(&updated, ID), Some((first..first + 5).collect()));
}

#[test]
fn remap_positions_stops_at_mismatch() {
    let script = vec![
        EditOp { tag: OpTag::Equal, unit: 'a' },
        EditOp { tag: OpTag::Equal, unit: 'b' },
        EditOp { tag: OpTag::Equal, unit: 'z' },
        EditOp { tag: OpTag::Equal, unit: 'c' },
    ];
    assert_eq!(remap_positions(&vec!['a', 'b', 'c'], &script), vec![0, 1]);
}

#[test]
fn remap_positions_ignores_deleted_start() {
    let script = vec![
        EditOp { tag: OpTag::Delete, unit: 'a' },
        EditOp { tag: OpTag::Insert, unit: 'q' },
        EditOp { tag: OpTag::Equal, unit: 'a' },
        EditOp { tag: OpTag::Equal, unit: 'b' },
    ];
    assert_eq!(remap_positions(&vec!['a', 'b'], &script), vec![2, 3]);
}

#[test]
fn remap_positions_starts_at_first_kept_occurrence() {
    let script = vec![
        EditOp { tag: OpTag::Equal, unit: 'a' },
        EditOp { tag: OpTag::Equal, unit: 'x' },
        EditOp { tag: OpTag::Equal, unit: 'a' },
        EditOp { tag: OpTag::Equal, unit: 'b' },
    ];
    assert_eq!(remap_positions(&vec!['a', 'b'], &script), vec![0]);
}

#[test]
fn remap_positions_of_empty_anchor() {
    let script = vec![EditOp { tag: OpTag::Equal, unit: 'a' }];
    assert!(remap_positions(&vec![], &script).is_empty());
}

#[test]
fn remap_positions_caps_at_anchor_length() {
    let script = vec![
        EditOp { tag: OpTag::Equal, unit: 'a' },
        EditOp { tag: OpTag::Equal, unit: 'a' },
        EditOp { tag: OpTag::Equal, unit: 'a' },
    ];
    assert_eq!(remap_positions(&vec!['a', 'a'], &script), vec![0, 1]);
}

#[test]
fn insert_and_get() {
    let mut index = AnnotationIndex::new();
    assert_eq!(positions(&index, 1), None);
    index.insert(1, vec![0, 1]);
    index.insert(2, vec![3]);
    index.insert(1, vec![2]);
    assert_eq!(positions(&index, 1), Some(vec![2]));
    assert_eq!(positions(&index, 2), Some(vec![3]));
    assert_eq!(positions(&index, 3), None);
}

#[test]
fn update_handles_several_annotations() {
    let mut index = AnnotationIndex::new();
    index.insert(1, vec![0, 1]);
    index.insert(2, vec![1, 2]);
    let updated = update_highlight_index("abc", "xyz", &index);
    assert_eq!(positions(&updated, 1), None);
    assert_eq!(positions(&updated, 2), None);
    let kept = update_highlight_index("abc", "abc", &index);
    assert_eq!(positions(&kept, 1), Some(vec![0, 1]));
    assert_eq!(positions(&kept, 2), Some(vec![1, 2]));
}

#[test]
fn update_chains_over_two_cycles() {
    let index = build_highlight_index("abcd", "bc", ID).unwrap();
    let once = update_highlight_index("abcd", "xbcd", &index);
    assert_eq!(positions(&once, ID), Some(vec![2, 3]));
    let twice = update_highlight_index("xbcd", "xbcd", &once);
    assert_eq!(positions(&twice, ID), Some(vec![2, 3]));
}
