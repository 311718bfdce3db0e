//! Classification of the operations of an edit script into change records.
use crate::palette::{
    bg_color_equal, color_equal, delete_bg, delete_fg, equal_bg, equal_fg, insert_bg, insert_fg,
    rgb, CharChangeType,
};
use crate::script::{new_units, old_units, EditOp, OpTag};
use colored::CustomColor;
use vstd::prelude::*;

verus! {

/// The kind of operation `op` standing at sequence index `idx`. A kept char is
/// `EqualIndex` exactly where `idx` equals the char's numeric code.
pub open spec fn kind_of(op: EditOp, idx: int) -> CharChangeType {
    match op.tag {
        OpTag::Equal => if idx == op.unit as u32 as int {
            CharChangeType::EqualIndex
        } else {
            CharChangeType::EqualDifferentIndex
        },
        OpTag::Insert => CharChangeType::Insertion,
        OpTag::Delete => CharChangeType::Deletion,
    }
}

/// Foreground of a change of kind `kind`.
pub open spec fn fg_of(kind: CharChangeType) -> (u8, u8, u8) {
    match kind {
        CharChangeType::Insertion => (100, 255, 100),
        CharChangeType::Deletion => (255, 90, 90),
        _ => equal_fg(kind),
    }
}

/// Background of a change of kind `kind`.
pub open spec fn bg_of(kind: CharChangeType) -> (u8, u8, u8) {
    match kind {
        CharChangeType::Insertion => (20, 70, 20),
        CharChangeType::Deletion => (100, 20, 20),
        _ => equal_bg(kind),
    }
}

/// One classified operation: its sequence index, its char, its kind and the
/// colours it is shown in.
#[derive(Clone, Copy, Debug)]
pub struct ChangeDetail {
    pub index: usize,
    pub value: char,
    pub change_type: CharChangeType,
    pub color: CustomColor,
    pub bg_color: CustomColor,
}

/// `d` is the record of operation `op` at sequence index `idx`.
pub open spec fn describes(d: ChangeDetail, op: EditOp, idx: int) -> bool {
    &&& d.index == idx
    &&& d.value == op.unit
    &&& d.change_type == kind_of(op, idx)
    &&& rgb(d.color) == fg_of(d.change_type)
    &&& rgb(d.bg_color) == bg_of(d.change_type)
}

/// `records` holds one record per operation of `script`, in order.
pub open spec fn classified(script: Seq<EditOp>, records: Seq<ChangeDetail>) -> bool {
    &&& records.len() == script.len()
    &&& forall|i: int| 0 <= i < script.len() ==> #[trigger] describes(records[i], script[i], i)
}

/// The record of operation `op` at sequence index `idx`.
pub fn describe(op: EditOp, idx: usize) -> (d: ChangeDetail)
    ensures
        describes(d, op, idx as int),
{
    match op.tag {
        OpTag::Equal => {
            let change_type = if op.unit as u32 as usize == idx {
                CharChangeType::EqualIndex
            } else {
                CharChangeType::EqualDifferentIndex
            };
            ChangeDetail {
                index: idx,
                value: op.unit,
                color: color_equal(&change_type),
                bg_color: bg_color_equal(&change_type),
                change_type,
            }
        },
        OpTag::Delete => ChangeDetail {
            index: idx,
            value: op.unit,
            change_type: CharChangeType::Deletion,
            color: delete_fg(),
            bg_color: delete_bg(),
        },
        OpTag::Insert => ChangeDetail {
            index: idx,
            value: op.unit,
            change_type: CharChangeType::Insertion,
            color: insert_fg(),
            bg_color: insert_bg(),
        },
    }
}

/// Walks `script` once and records each operation with its sequence index
/// (its position in `script`), its char, its kind and its colours.
pub fn classify(script: &Vec<EditOp>) -> (r: Vec<ChangeDetail>)
    ensures
        classified(script@, r@),
{
    let mut r: Vec<ChangeDetail> = Vec::new();
    let mut i: usize = 0;
    while i < script.len()
        invariant
            i <= script@.len(),
            r@.len() == i,
            forall|t: int| 0 <= t < i ==> #[trigger] describes(r@[t], script@[t], t),
        decreases script.len() - i,
    {
        r.push(describe(script[i], i));
        i = i + 1;
    }
    r
}

/// The chars of the old text that `records` account for: all but the insertions, in order.
pub open spec fn record_old_units(records: Seq<ChangeDetail>) -> Seq<char>
    decreases records.len(),
{
    if records.len() == 0 {
        seq![]
    } else if records.last().change_type == CharChangeType::Insertion {
        record_old_units(records.drop_last())
    } else {
        record_old_units(records.drop_last()).push(records.last().value)
    }
}

/// The chars of the new text that `records` account for: all but the deletions, in order.
pub open spec fn record_new_units(records: Seq<ChangeDetail>) -> Seq<char>
    decreases records.len(),
{
    if records.len() == 0 {
        seq![]
    } else if records.last().change_type == CharChangeType::Deletion {
        record_new_units(records.drop_last())
    } else {
        record_new_units(records.drop_last()).push(records.last().value)
    }
}

/// Classifying an edit script omits and repeats nothing: every char of the old
/// text stands, in order, in exactly one record that is a deletion or kept,
/// and every char of the new text in exactly one that is an insertion or kept.
pub proof fn lemma_classifier_coverage(
    script: Seq<EditOp>,
    records: Seq<ChangeDetail>,
    old_text: Seq<char>,
    new_text: Seq<char>,
)
    requires
        old_units(script) == old_text,
        new_units(script) == new_text,
        classified(script, records),
    ensures
        record_old_units(records) == old_text,
        record_new_units(records) == new_text,
    decreases script.len(),
{
    if script.len() > 0 {
        let n = script.len() - 1;
        assert(describes(records[n], script[n], n));
        assert forall|i: int| 0 <= i < script.drop_last().len() implies #[trigger] describes(
            records.drop_last()[i],
            script.drop_last()[i],
            i,
        ) by {
            assert(describes(records[i], script[i], i));
        }
        lemma_classifier_coverage(
            script.drop_last(),
            records.drop_last(),
            old_units(script.drop_last()),
            new_units(script.drop_last()),
        );
    }
}

/// A char together with an index.
#[derive(Clone, Copy, Debug, PartialEq, Eq, Structural)]
pub struct CharMetadata {
    pub index: usize,
    pub value: char,
}

/// A kept char: `old_info` holds its rank among the kept chars, `new_info`
/// its sequence index in the script.
#[derive(Clone, Copy, Debug, PartialEq, Eq, Structural)]
pub struct EqualCharPair {
    pub old_info: CharMetadata,
    pub new_info: CharMetadata,
}

/// The insertions, deletions and kept chars of a classification.
#[derive(Clone, Debug)]
pub struct CharDiffResult {
    pub insertions: Vec<CharMetadata>,
    pub deletions: Vec<CharMetadata>,
    pub equal_matches: Vec<EqualCharPair>,
}

/// Whether `kind` is one of the two kinds of a kept char.
pub open spec fn is_kept(kind: CharChangeType) -> bool {
    kind == CharChangeType::EqualIndex || kind == CharChangeType::EqualDifferentIndex
}

/// The records of `records` of kind `kind`, as index and char, in order.
pub open spec fn picked(records: Seq<ChangeDetail>, kind: CharChangeType) -> Seq<CharMetadata>
    decreases records.len(),
{
    if records.len() == 0 {
        seq![]
    } else if records.last().change_type == kind {
        picked(records.drop_last(), kind).push(
            CharMetadata { index: records.last().index, value: records.last().value },
        )
    } else {
        picked(records.drop_last(), kind)
    }
}

/// The kept records of `records`, as index and char, in order.
pub open spec fn kept(records: Seq<ChangeDetail>) -> Seq<CharMetadata>
    decreases records.len(),
{
    if records.len() == 0 {
        seq![]
    } else if is_kept(records.last().change_type) {
        kept(records.drop_last()).push(
            CharMetadata { index: records.last().index, value: records.last().value },
        )
    } else {
        kept(records.drop_last())
    }
}

/// `pairs` pairs the `k`-th kept record, as `(k, char)`, with its `(sequence index, char)`.
pub open spec fn pairs_kept(pairs: Seq<EqualCharPair>, records: Seq<ChangeDetail>) -> bool {
    &&& pairs.len() == kept(records).len()
    &&& forall|k: int|
        0 <= k < pairs.len() ==> (#[trigger] pairs[k]).old_info.index == k
            && pairs[k].old_info.value == kept(records)[k].value && pairs[k].new_info
            == kept(records)[k]
}

/// Splits `records` into insertions, deletions and kept chars, each in order;
/// the `k`-th kept char is paired as `(k, char)` with `(sequence index, char)`.
pub fn collect_char_diff(records: &Vec<ChangeDetail>) -> (r: CharDiffResult)
    ensures
        r.insertions@ == picked(records@, CharChangeType::Insertion),
        r.deletions@ == picked(records@, CharChangeType::Deletion),
        pairs_kept(r.equal_matches@, records@),
{
    let mut insertions: Vec<CharMetadata> = Vec::new();
    let mut deletions: Vec<CharMetadata> = Vec::new();
    let mut equal_matches: Vec<EqualCharPair> = Vec::new();
    let mut i: usize = 0;
    while i < records.len()
        invariant
            i <= records@.len(),
            insertions@ == picked(records@.subrange(0, i as int), CharChangeType::Insertion),
            deletions@ == picked(records@.subrange(0, i as int), CharChangeType::Deletion),
            pairs_kept(equal_matches@, records@.subrange(0, i as int)),
        decreases records.len() - i,
    {
        let d = records[i];
        let meta = CharMetadata { index: d.index, value: d.value };
        let ghost pre = records@.subrange(0, i as int);
        let ghost eq0 = equal_matches@;
        assert(records@.subrange(0, i + 1).drop_last() =~= pre);
        assert(records@.subrange(0, i + 1).last() == d);
        match d.change_type {
            CharChangeType::Insertion => insertions.push(meta),
            CharChangeType::Deletion => deletions.push(meta),
            _ => {
                let k = equal_matches.len();
                equal_matches.push(
                    EqualCharPair { old_info: CharMetadata { index: k, value: d.value }, new_info: meta },
                );
                assert forall|t: int| 0 <= t < k implies (#[trigger] equal_matches@[t]) == eq0[t] by {}
            },
        }
        i = i + 1;
    }
    assert(records@.subrange(0, i as int) =~= records@);
    CharDiffResult { insertions, deletions, equal_matches }
}

} // verus!
