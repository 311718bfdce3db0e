use similar_lib::classify::{classify, collect_char_diff, describe, CharMetadata};
use similar_lib::palette::{
    bg_color_equal, color_equal, delete_bg, delete_fg, insert_bg, insert_fg, CharChangeType,
};
use similar_lib::script::{diff_chars, EditOp, OpTag};
use similar_lib::stats::calculate_stats;

fn rgb(c: colored::CustomColor) -> (u8, u8, u8) {
    (c.r, c.g, c.b)
}

#[test]
fn equal_tie_break_on_char_code() {
    let kept = EditOp { tag: OpTag::Equal, unit: 'a' };
    assert_eq!(describe(kept, 97).change_type, CharChangeType::EqualIndex);
    assert_eq!(describe(kept, 3).change_type, CharChangeType::EqualDifferentIndex);
    let accented = EditOp { tag: OpTag::Equal, unit: 'é' };
    assert_eq!(describe(accented, 0xE9).change_type, CharChangeType::EqualIndex);
    assert_eq!(describe(accented, 0xC3).change_type, CharChangeType::EqualDifferentIndex);
    assert_eq!(rgb(describe(accented, 0xE9).color), (220, 220, 220));
    assert_eq!(rgb(describe(accented, 0xC3).color), (255, 225, 0));
    let euro = EditOp { tag: OpTag::Equal, unit: '€' };
    assert_eq!(describe(euro, 0x20AC).change_type, CharChangeType::EqualIndex);
    assert_eq!(describe(euro, 0xE2).change_type, CharChangeType::EqualDifferentIndex);
}

#[test]
fn classify_records_every_operation() {
    let records = classify(&diff_chars("abc", "axc"));
    let kinds: Vec<CharChangeType> = records.iter().map(|r| r.change_type).collect();
    assert_eq!(
        kinds,
        vec![
            CharChangeType::EqualDifferentIndex,
            CharChangeType::Deletion,
            CharChangeType::Insertion,
            CharChangeType::EqualDifferentIndex,
        ]
    );
    let indexes: Vec<usize> = records.iter().map(|r| r.index).collect();
    assert_eq!(indexes, vec![0, 1, 2, 3]);
    let values: String = records.iter().map(|r| r.value).collect();
    assert_eq!(values, "abxc");
}

#[test]
fn classify_colours_each_kind() {
    let records = classify(&diff_chars("abc", "axc"));
    assert_eq!(rgb(records[0].color), (255, 225, 0));
    assert_eq!(rgb(records[0].bg_color), (100, 100, 180));
    assert_eq!(rgb(records[1].color), (255, 90, 90));
    assert_eq!(rgb(records[1].bg_color), (100, 20, 20));
    assert_eq!(rgb(records[2].color), (100, 255, 100));
    assert_eq!(rgb(records[2].bg_color), (20, 70, 20));
}

#[test]
fn classify_equal_index_colours() {
    let records = classify(&vec![
        EditOp { tag: OpTag::Insert, unit: 'q' },
        EditOp { tag: OpTag::Equal, unit: '\u{1}' },
    ]);
    assert_eq!(records[1].change_type, CharChangeType::EqualIndex);
    assert_eq!(rgb(records[1].color), (220, 220, 220));
    assert_eq!(rgb(records[1].bg_color), (0, 0, 0));
}

#[test]
fn classifier_covers_both_texts() {
    let old_text = "#JohnDoe";
    let new_text = "hi, #John";
    let records = classify(&diff_chars(old_text, new_text));
    let old_side: String = records
        .iter()
        .filter(|r| r.change_type != CharChangeType::Insertion)
        .map(|r| r.value)
        .collect();
    let new_side: String = records
        .iter()
        .filter(|r| r.change_type != CharChangeType::Deletion)
        .map(|r| r.value)
        .collect();
    assert_eq!(old_side, old_text);
    assert_eq!(new_side, new_text);
}

#[test]
fn palette_values() {
    assert_eq!(rgb(color_equal(&CharChangeType::EqualIndex)), (220, 220, 220));
    assert_eq!(rgb(color_equal(&CharChangeType::EqualDifferentIndex)), (255, 225, 0));
    assert_eq!(rgb(color_equal(&CharChangeType::Insertion)), (0, 0, 0));
    assert_eq!(rgb(bg_color_equal(&CharChangeType::EqualIndex)), (0, 0, 0));
    assert_eq!(rgb(bg_color_equal(&CharChangeType::EqualDifferentIndex)), (100, 100, 180));
    assert_eq!(rgb(bg_color_equal(&CharChangeType::Deletion)), (0, 0, 0));
    assert_eq!(rgb(delete_fg()), (255, 90, 90));
    assert_eq!(rgb(delete_bg()), (100, 20, 20));
    assert_eq!(rgb(insert_fg()), (100, 255, 100));
    assert_eq!(rgb(insert_bg()), (20, 70, 20));
}

#[test]
fn char_diff_collects_each_kind() {
    let records = classify(&diff_chars("abc", "axc"));
    let result = collect_char_diff(&records);
    assert_eq!(result.insertions, vec![CharMetadata { index: 2, value: 'x' }]);
    assert_eq!(result.deletions, vec![CharMetadata { index: 1, value: 'b' }]);
    assert_eq!(result.equal_matches.len(), 2);
    assert_eq!(result.equal_matches[0].old_info, CharMetadata { index: 0, value: 'a' });
    assert_eq!(result.equal_matches[0].new_info, CharMetadata { index: 0, value: 'a' });
    assert_eq!(result.equal_matches[1].old_info, CharMetadata { index: 1, value: 'c' });
    assert_eq!(result.equal_matches[1].new_info, CharMetadata { index: 3, value: 'c' });
}

#[test]
fn stats_count_each_kind() {
    let records = classify(&diff_chars("abc", "axc"));
    let stats = calculate_stats(&records);
    assert_eq!(stats.total_changes, 4);
    assert_eq!(stats.unchanged, 2);
    assert_eq!(stats.insertions, 1);
    assert_eq!(stats.deletions, 1);
}

#[test]
fn stats_of_empty_classification() {
    let stats = calculate_stats(&Vec::new());
    assert_eq!(stats.total_changes, 0);
    assert_eq!(stats.unchanged, 0);
    assert_eq!(stats.insertions, 0);
    assert_eq!(stats.deletions, 0);
}
