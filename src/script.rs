//! Edit scripts between two texts, seen as sequences of chars.
use similar::ChangeTag;
use vstd::prelude::*;

verus! {

/// What an edit operation does to its unit.
#[derive(Clone, Copy, Debug, PartialEq, Eq, Structural)]
pub enum OpTag {
    Equal,
    Insert,
    Delete,
}

/// One operation of an edit script: a tag and the char it covers.
#[derive(Clone, Copy, Debug, PartialEq, Eq, Structural)]
pub struct EditOp {
    pub tag: OpTag,
    pub unit: char,
}

/// The units of the old text that a script accounts for (Delete and Equal), in order.
pub open spec fn old_units(s: Seq<EditOp>) -> Seq<char>
    decreases s.len(),
{
    if s.len() == 0 {
        seq![]
    } else if s.last().tag == OpTag::Insert {
        old_units(s.drop_last())
    } else {
        old_units(s.drop_last()).push(s.last().unit)
    }
}

/// The units of the new text that a script accounts for (Insert and Equal), in order.
pub open spec fn new_units(s: Seq<EditOp>) -> Seq<char>
    decreases s.len(),
{
    if s.len() == 0 {
        seq![]
    } else if s.last().tag == OpTag::Delete {
        new_units(s.drop_last())
    } else {
        new_units(s.drop_last()).push(s.last().unit)
    }
}

/// `s` keeps every unit of `t`: one Equal operation per unit, the `i`-th covering `t[i]`.
pub open spec fn is_equal_script(s: Seq<EditOp>, t: Seq<char>) -> bool {
    &&& s.len() == t.len()
    &&& forall|i: int| 0 <= i < s.len() ==> #[trigger] s[i] == (EditOp { tag: OpTag::Equal, unit: t[i] })
}

/// The edit script that the character differ produces for `old` and `new`.
pub uninterp spec fn diff_of(old: Seq<char>, new: Seq<char>) -> Seq<EditOp>;

/// Relies on `similar::TextDiff::from_chars` and `TextDiff::iter_all_changes`:
/// a Myers diff of the two texts split into chars, with no deadline, so the
/// result depends on the texts alone; its changes account for every char of
/// `old` (Delete or Equal) and of `new` (Insert or Equal) once, in order, and
/// two equal texts are one common prefix, so all of their changes are Equal.
#[verifier::external_body]
fn char_diff(old_text: &str, new_text: &str) -> (r: Vec<EditOp>)
    ensures
        r@ == diff_of(old_text@, new_text@),
        old_units(r@) == old_text@,
        new_units(r@) == new_text@,
        old_text@ == new_text@ ==> is_equal_script(r@, old_text@),
{
    let diff = similar::TextDiff::from_chars(old_text, new_text);
    let mut ops = Vec::new();
    for change in diff.iter_all_changes() {
        let tag = match change.tag() {
            ChangeTag::Equal => OpTag::Equal,
            ChangeTag::Insert => OpTag::Insert,
            ChangeTag::Delete => OpTag::Delete,
        };
        ops.push(EditOp { tag, unit: change.value().chars().next().unwrap() });
    }
    ops
}

/// The edit script from `old` to `new`: every char of `old` stands in exactly
/// one Delete or Equal operation and every char of `new` in exactly one Insert
/// or Equal operation, both in order; equal texts give only Equal operations,
/// the `i`-th covering the `i`-th char.
pub fn diff_chars(old_text: &str, new_text: &str) -> (r: Vec<EditOp>)
    ensures
        r@ == diff_of(old_text@, new_text@),
        old_units(r@) == old_text@,
        new_units(r@) == new_text@,
        old_text@ == new_text@ ==> is_equal_script(r@, old_text@),
{
    char_diff(old_text, new_text)
}

} // verus!
