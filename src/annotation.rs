//! Annotations: tracked char positions of a text, built from a pattern and
//! carried over to a new version of the text through an edit script.
use crate::script::{diff_chars, diff_of, is_equal_script, new_units, EditOp, OpTag};
use vstd::prelude::*;

verus! {

/// Operation `i` of `script` exists, is Equal, and covers `c`.
pub open spec fn is_equal_at(script: Seq<EditOp>, i: int, c: char) -> bool {
    0 <= i < script.len() && script[i].tag == OpTag::Equal && script[i].unit == c
}

/// The first operation at or after `from` that is Equal and covers `c`;
/// `script.len()` where there is none.
pub open spec fn first_equal_from(script: Seq<EditOp>, c: char, from: int) -> int
    decreases script.len() - from,
{
    if from >= script.len() {
        script.len() as int
    } else if is_equal_at(script, from, c) {
        from
    } else {
        first_equal_from(script, c, from + 1)
    }
}

/// How many further units of `anchor`, from its `k`-th on, are covered by
/// consecutive Equal operations from `start + k` on.
pub open spec fn run_len(script: Seq<EditOp>, anchor: Seq<char>, start: int, k: int) -> nat
    decreases anchor.len() - k,
{
    if 0 <= k < anchor.len() && is_equal_at(script, start + k, anchor[k]) {
        run_len(script, anchor, start, k + 1) + 1
    } else {
        0
    }
}

/// Where a re-anchored span starts: the first Equal operation that covers the
/// anchor's first unit (`script.len()` when the anchor is empty or there is none).
pub open spec fn remap_start(anchor: Seq<char>, script: Seq<EditOp>) -> int {
    if anchor.len() == 0 {
        script.len() as int
    } else {
        first_equal_from(script, anchor[0], 0)
    }
}

/// The positions that an anchor is re-anchored to: from the start, one
/// position per consecutive Equal operation that covers the next anchor unit,
/// stopping at the first one that does not.
pub open spec fn remapped(anchor: Seq<char>, script: Seq<EditOp>) -> Seq<usize> {
    let s = remap_start(anchor, script);
    if s >= script.len() {
        seq![]
    } else {
        Seq::new(run_len(script, anchor, s, 0), |j: int| (s + j) as usize)
    }
}

proof fn lemma_run_len_stops(script: Seq<EditOp>, anchor: Seq<char>, start: int, k: int)
    requires
        0 <= k,
        !(k < anchor.len() && is_equal_at(script, start + k, anchor[k])),
    ensures
        run_len(script, anchor, start, k) == 0,
{
}

proof fn lemma_run_len_bound(script: Seq<EditOp>, anchor: Seq<char>, start: int, k: int)
    requires
        0 <= k <= anchor.len(),
    ensures
        run_len(script, anchor, start, k) <= anchor.len() - k,
    decreases anchor.len() - k,
{
    if k < anchor.len() && is_equal_at(script, start + k, anchor[k]) {
        lemma_run_len_bound(script, anchor, start, k + 1);
    }
}

/// Re-anchors `anchor` in the new text of `script`: finds the first Equal
/// operation that covers the anchor's first unit, then accepts the following
/// operations while each is Equal and covers the next anchor unit. Returns the
/// positions in `script` of the accepted operations; empty where the first
/// unit is never kept.
pub fn remap_positions(anchor: &Vec<char>, script: &Vec<EditOp>) -> (r: Vec<usize>)
    ensures
        r@ == remapped(anchor@, script@),
        r@.len() <= anchor@.len(),
        ascending(r@),
        forall|j: int| 0 <= j < r@.len() ==> is_equal_at(script@, #[trigger] r@[j] as int, anchor@[j]),
{
    let mut out: Vec<usize> = Vec::new();
    if anchor.len() == 0 {
        assert(out@ =~= remapped(anchor@, script@));
        return out;
    }
    let first = anchor[0];
    let mut i: usize = 0;
    while i < script.len() && !(script[i].tag == OpTag::Equal && script[i].unit == first)
        invariant
            i <= script.len(),
            first == anchor@[0],
            first_equal_from(script@, first, 0) == first_equal_from(script@, first, i as int),
        decreases script.len() - i,
    {
        i = i + 1;
    }
    if i == script.len() {
        assert(out@ =~= remapped(anchor@, script@));
        return out;
    }
    let start = i;
    assert(remap_start(anchor@, script@) == start);
    let mut j: usize = 0;
    while j < anchor.len() && start + j < script.len() && script[start + j].tag == OpTag::Equal
        && script[start + j].unit == anchor[j]
        invariant
            j <= anchor.len(),
            start < script.len(),
            start + j <= script.len(),
            remap_start(anchor@, script@) == start,
            out@.len() == j,
            forall|t: int| 0 <= t < j ==> out@[t] == start + t,
            forall|t: int| 0 <= t < j ==> is_equal_at(script@, start + t, anchor@[t]),
            run_len(script@, anchor@, start as int, 0) == j + run_len(
                script@,
                anchor@,
                start as int,
                j as int,
            ),
        decreases anchor.len() - j,
    {
        out.push(start + j);
        j = j + 1;
    }
    proof {
        lemma_run_len_stops(script@, anchor@, start as int, j as int);
        lemma_run_len_bound(script@, anchor@, start as int, 0);
        assert(out@ =~= remapped(anchor@, script@));
    }
    out
}

/// One tracked span: an identifier and the positions it occupies.
#[derive(Clone, Debug)]
pub struct Annotation {
    pub id: u128,
    pub positions: Vec<usize>,
}

/// The map that a list of annotations stands for; a later entry for an id
/// overrides an earlier one.
pub open spec fn map_of(s: Seq<Annotation>) -> Map<u128, Seq<usize>>
    decreases s.len(),
{
    if s.len() == 0 {
        Map::empty()
    } else {
        map_of(s.drop_last()).insert(s.last().id, s.last().positions@)
    }
}

/// No two annotations share an id.
pub open spec fn ids_unique(s: Seq<Annotation>) -> bool {
    forall|a: int, b: int| 0 <= a < b < s.len() ==> s[a].id != s[b].id
}

proof fn lemma_map_of_dom(s: Seq<Annotation>, k: u128)
    ensures
        map_of(s).contains_key(k) <==> exists|t: int| 0 <= t < s.len() && s[t].id == k,
    decreases s.len(),
{
    if s.len() > 0 {
        lemma_map_of_dom(s.drop_last(), k);
        if map_of(s.drop_last()).contains_key(k) {
            let t = choose|t: int| 0 <= t < s.drop_last().len() && s.drop_last()[t].id == k;
            assert(s[t].id == k);
        }
        if exists|t: int| 0 <= t < s.len() && s[t].id == k {
            let t = choose|t: int| 0 <= t < s.len() && s[t].id == k;
            if t < s.len() - 1 {
                assert(s.drop_last()[t].id == k);
            }
        }
    }
}

proof fn lemma_map_of_at(s: Seq<Annotation>, t: int)
    requires
        ids_unique(s),
        0 <= t < s.len(),
    ensures
        map_of(s).contains_key(s[t].id),
        map_of(s)[s[t].id] == s[t].positions@,
    decreases s.len(),
{
    if t < s.len() - 1 {
        assert(s.drop_last()[t] == s[t]);
        lemma_map_of_at(s.drop_last(), t);
    }
}

/// The positions that each annotation occupies in one snapshot of a text.
#[derive(Clone, Debug)]
pub struct AnnotationIndex {
    entries: Vec<Annotation>,
}

impl View for AnnotationIndex {
    type V = Map<u128, Seq<usize>>;

    closed spec fn view(&self) -> Map<u128, Seq<usize>> {
        map_of(self.entries@)
    }
}

/// Every position of every annotation lies inside `text`.
pub open spec fn positions_in(index: Map<u128, Seq<usize>>, text: Seq<char>) -> bool {
    forall|k: u128, j: int|
        index.contains_key(k) && 0 <= j < index[k].len() ==> #[trigger] index[k][j] < text.len()
}

/// The chars that `positions` point at in `text`.
pub open spec fn anchor_of(text: Seq<char>, positions: Seq<usize>) -> Seq<char> {
    positions.map_values(|p: usize| text[p as int])
}

/// The index that re-anchoring every annotation of `index` through `script`
/// gives: an annotation whose span cannot be re-anchored at all is left out.
pub open spec fn remapped_index(
    index: Map<u128, Seq<usize>>,
    text: Seq<char>,
    script: Seq<EditOp>,
) -> Map<u128, Seq<usize>> {
    Map::new(
        |k: u128| index.contains_key(k) && remapped(anchor_of(text, index[k]), script).len() > 0,
        |k: u128| remapped(anchor_of(text, index[k]), script),
    )
}

impl AnnotationIndex {
    /// No two entries share an id.
    pub closed spec fn wf(&self) -> bool {
        ids_unique(self.entries@)
    }

    /// An index without annotations.
    pub fn new() -> (r: AnnotationIndex)
        ensures
            r.wf(),
            r@ == Map::<u128, Seq<usize>>::empty(),
    {
        AnnotationIndex { entries: Vec::new() }
    }

    /// The positions of annotation `id`, if the index holds it.
    pub fn get(&self, id: u128) -> (r: Option<&Vec<usize>>)
        requires
            self.wf(),
        ensures
            r.is_some() == self@.contains_key(id),
            r.is_some() ==> r.unwrap()@ == self@[id],
    {
        let mut i: usize = 0;
        while i < self.entries.len()
            invariant
                i <= self.entries@.len(),
                ids_unique(self.entries@),
                forall|t: int| 0 <= t < i ==> self.entries@[t].id != id,
            decreases self.entries.len() - i,
        {
            if self.entries[i].id == id {
                proof {
                    lemma_map_of_at(self.entries@, i as int);
                }
                return Some(&self.entries[i].positions);
            }
            i = i + 1;
        }
        proof {
            lemma_map_of_dom(self.entries@, id);
        }
        None
    }
}

proof fn lemma_map_of_update(s: Seq<Annotation>, i: int, a: Annotation)
    requires
        ids_unique(s),
        0 <= i < s.len(),
        s[i].id == a.id,
    ensures
        ids_unique(s.update(i, a)),
        map_of(s.update(i, a)) == map_of(s).insert(a.id, a.positions@),
{
    let u = s.update(i, a);
    assert forall|k: u128| #[trigger] map_of(u).contains_key(k) == map_of(s).insert(a.id, a.positions@).contains_key(k) by {
        lemma_map_of_dom(s, k);
        lemma_map_of_dom(u, k);
        if k == a.id {
            assert(u[i].id == k);
        } else if map_of(s).contains_key(k) {
            let t = choose|t: int| 0 <= t < s.len() && s[t].id == k;
            assert(u[t].id == k);
        } else if map_of(u).contains_key(k) {
            let t = choose|t: int| 0 <= t < u.len() && u[t].id == k;
            assert(s[t].id == k);
        }
    }
    assert forall|k: u128| #[trigger] map_of(u).contains_key(k) implies map_of(u)[k] == map_of(s).insert(a.id, a.positions@)[k] by {
        lemma_map_of_dom(u, k);
        let t = choose|t: int| 0 <= t < u.len() && u[t].id == k;
        lemma_map_of_at(u, t);
        if t != i {
            lemma_map_of_at(s, t);
        }
    }
    assert(map_of(u) =~= map_of(s).insert(a.id, a.positions@));
}

impl AnnotationIndex {
    /// Sets the positions of annotation `id`, in place of any it had.
    pub fn insert(&mut self, id: u128, positions: Vec<usize>)
        requires
            old(self).wf(),
        ensures
            final(self).wf(),
            final(self)@ == old(self)@.insert(id, positions@),
    {
        let mut i: usize = 0;
        while i < self.entries.len()
            invariant
                i <= self.entries@.len(),
                self.entries@ == old(self).entries@,
                ids_unique(self.entries@),
                forall|t: int| 0 <= t < i ==> self.entries@[t].id != id,
            decreases self.entries.len() - i,
        {
            if self.entries[i].id == id {
                let a = Annotation { id, positions };
                proof {
                    lemma_map_of_update(self.entries@, i as int, a);
                }
                self.entries.set(i, a);
                return;
            }
            i = i + 1;
        }
        let ghost before = self.entries@;
        self.entries.push(Annotation { id, positions });
        assert(self.entries@.drop_last() =~= before);
    }
}

/// The chars of `text` at `positions`, in order.
fn anchor_chars(text: &str, positions: &Vec<usize>) -> (r: Vec<char>)
    requires
        forall|j: int| 0 <= j < positions@.len() ==> #[trigger] positions@[j] < text@.len(),
    ensures
        r@ == anchor_of(text@, positions@),
{
    let mut r: Vec<char> = Vec::new();
    let mut j: usize = 0;
    while j < positions.len()
        invariant
            j <= positions@.len(),
            forall|t: int| 0 <= t < positions@.len() ==> #[trigger] positions@[t] < text@.len(),
            r@.len() == j,
            forall|t: int| 0 <= t < j ==> r@[t] == text@[positions@[t] as int],
        decreases positions.len() - j,
    {
        r.push(text.get_char(positions[j]));
        j = j + 1;
    }
    assert(r@ =~= anchor_of(text@, positions@));
    r
}

/// Carries every annotation of `index`, whose positions point into
/// `old_text`, over to the char diff of `old_text` and `new_text`: each
/// annotation's chars are re-anchored (see `remap_positions`) in that edit
/// script, and an annotation that cannot be re-anchored at all is left out.
/// The resulting positions are sequence indices of the edit script's
/// operations; they equal positions in `new_text` only where no deletion
/// comes before them.
pub fn update_highlight_index(old_text: &str, new_text: &str, index: &AnnotationIndex) -> (r:
    AnnotationIndex)
    requires
        index.wf(),
        positions_in(index@, old_text@),
    ensures
        r.wf(),
        r@ == remapped_index(index@, old_text@, diff_of(old_text@, new_text@)),
{
    let script = diff_chars(old_text, new_text);
    let ghost entries = index.entries@;
    let mut out: Vec<Annotation> = Vec::new();
    let mut i: usize = 0;
    while i < index.entries.len()
        invariant
            i <= entries.len(),
            entries == index.entries@,
            ids_unique(entries),
            positions_in(index@, old_text@),
            index@ == map_of(entries),
            script@ == diff_of(old_text@, new_text@),
            ids_unique(out@),
            forall|a: int|
                0 <= a < out@.len() ==> exists|t: int| 0 <= t < i && entries[t].id == #[trigger] out@[a].id,
            map_of(out@) == remapped_index(map_of(entries.subrange(0, i as int)), old_text@, script@),
        decreases entries.len() - i,
    {
        let entry = &index.entries[i];
        proof {
            lemma_map_of_at(entries, i as int);
            assert forall|j: int| 0 <= j < entry.positions@.len() implies #[trigger] entry.positions@[j]
                < old_text@.len() by {
                assert(index@[entry.id][j] < old_text@.len());
            }
        }
        let anchor = anchor_chars(old_text, &entry.positions);
        let found = remap_positions(&anchor, &script);
        let ghost before = map_of(entries.subrange(0, i as int));
        let ghost out0 = out@;
        proof {
            assert(entries.subrange(0, i as int + 1).drop_last() =~= entries.subrange(0, i as int));
            lemma_map_of_dom(entries.subrange(0, i as int), entry.id);
            assert(!before.contains_key(entry.id)) by {
                if before.contains_key(entry.id) {
                    let t = choose|t: int| 0 <= t < i && entries.subrange(0, i as int)[t].id == entry.id;
                    assert(entries[t].id == entries[i as int].id);
                }
            }
        }
        if found.len() > 0 {
            out.push(Annotation { id: entry.id, positions: found });
            proof {
                assert(out@.drop_last() =~= out0);
                assert forall|a: int, b: int| 0 <= a < b < out@.len() implies out@[a].id != out@[b].id by {
                    if b == out@.len() - 1 {
                        assert(out0[a] == out@[a]);
                        let t = choose|t: int| 0 <= t < i && entries[t].id == #[trigger] out0[a].id;
                    }
                }
                assert forall|a: int| 0 <= a < out@.len() implies exists|t: int|
                    0 <= t < i + 1 && entries[t].id == #[trigger] out@[a].id by {
                    if a < out@.len() - 1 {
                        assert(out0[a] == out@[a]);
                    } else {
                        assert(entries[i as int].id == out@[a].id);
                    }
                }
                assert(map_of(out@) =~= remapped_index(map_of(entries.subrange(0, i as int + 1)), old_text@, script@));
            }
        } else {
            proof {
                assert forall|a: int| 0 <= a < out@.len() implies exists|t: int|
                    0 <= t < i + 1 && entries[t].id == #[trigger] out@[a].id by {
                    let t = choose|t: int| 0 <= t < i && entries[t].id == #[trigger] out@[a].id;
                }
                assert(map_of(out@) =~= remapped_index(map_of(entries.subrange(0, i as int + 1)), old_text@, script@));
            }
        }
        i = i + 1;
    }
    assert(entries.subrange(0, i as int) =~= entries);
    AnnotationIndex { entries: out }
}

/// Why an index cannot be built.
#[derive(Clone, Copy, Debug, PartialEq, Eq, Structural)]
pub enum IndexError {
    /// The pattern is empty: a scan for it would never end.
    EmptyPattern,
}

/// `pattern` occurs in `text` at position `p`.
pub open spec fn matches_at(text: Seq<char>, pattern: Seq<char>, p: int) -> bool {
    &&& 0 <= p
    &&& p + pattern.len() <= text.len()
    &&& forall|j: int| 0 <= j < pattern.len() ==> #[trigger] text[p + j] == pattern[j]
}

/// Position `q` lies inside an occurrence of `pattern` that starts before `limit`.
pub open spec fn covered_before(text: Seq<char>, pattern: Seq<char>, q: int, limit: int) -> bool {
    exists|p: int| p < limit && #[trigger] matches_at(text, pattern, p) && p <= q < p + pattern.len()
}

/// Position `q` lies inside some occurrence of `pattern`, overlapping ones included.
pub open spec fn covered(text: Seq<char>, pattern: Seq<char>, q: int) -> bool {
    exists|p: int| #[trigger] matches_at(text, pattern, p) && p <= q < p + pattern.len()
}

/// `s` is strictly ascending.
pub open spec fn ascending(s: Seq<usize>) -> bool {
    forall|a: int, b: int| 0 <= a < b < s.len() ==> s[a] < s[b]
}

/// `positions` lists, in ascending order and once each, the positions of
/// `text` that lie inside an occurrence of `pattern`.
pub open spec fn is_cover(text: Seq<char>, pattern: Seq<char>, positions: Seq<usize>) -> bool {
    &&& ascending(positions)
    &&& forall|q: usize| positions.contains(q) <==> #[trigger] covered(text, pattern, q as int)
}

/// The chars of `s`, in order.
fn chars_of(s: &str) -> (r: Vec<char>)
    ensures
        r@ == s@,
{
    let n = s.unicode_len();
    let mut r: Vec<char> = Vec::new();
    let mut i: usize = 0;
    while i < n
        invariant
            n == s@.len(),
            i <= n,
            r@ == s@.subrange(0, i as int),
        decreases n - i,
    {
        r.push(s.get_char(i));
        i = i + 1;
        assert(r@ =~= s@.subrange(0, i as int));
    }
    assert(s@.subrange(0, n as int) =~= s@);
    r
}

/// Whether `pattern` occurs in `text` at position `p`.
fn occurs_at(text: &Vec<char>, pattern: &Vec<char>, p: usize) -> (r: bool)
    requires
        p + pattern@.len() <= text@.len(),
    ensures
        r == matches_at(text@, pattern@, p as int),
{
    let tl = text.len();
    let mut j: usize = 0;
    while j < pattern.len()
        invariant
            j <= pattern@.len(),
            tl == text@.len(),
            p + pattern@.len() <= text@.len(),
            forall|t: int| 0 <= t < j ==> text@[p + t] == pattern@[t],
        decreases pattern.len() - j,
    {
        if text[p + j] != pattern[j] {
            return false;
        }
        j = j + 1;
    }
    true
}

/// Builds the index of annotation `id` over `text`: the positions covered by
/// the occurrences of `pattern`, overlapping ones included (the scan moves on
/// one char past each match's start), in ascending order and once each.
/// Where `pattern` never occurs, the index is empty. An empty pattern is refused.
pub fn build_highlight_index(text: &str, pattern: &str, id: u128) -> (r: Result<
    AnnotationIndex,
    IndexError,
>)
    ensures
        r is Err <==> pattern@.len() == 0,
        r is Err ==> r == Err::<AnnotationIndex, IndexError>(IndexError::EmptyPattern),
        r matches Ok(ix) ==> {
            &&& ix.wf()
            &&& forall|k: u128| ix@.contains_key(k) ==> k == id
            &&& ix@.contains_key(id) <==> exists|p: int| matches_at(text@, pattern@, p)
            &&& ix@.contains_key(id) ==> is_cover(text@, pattern@, ix@[id])
        },
{
    let t = chars_of(text);
    let pat = chars_of(pattern);
    let n = t.len();
    let m = pat.len();
    if m == 0 {
        return Err(IndexError::EmptyPattern);
    }
    let mut out: Vec<usize> = Vec::new();
    let mut next: usize = 0;
    let mut p: usize = 0;
    while m <= n - p
        invariant
            t@ == text@,
            pat@ == pattern@,
            n == t@.len(),
            m == pat@.len(),
            m > 0,
            p <= n,
            next <= n,
            next <= p + m,
            ascending(out@),
            forall|a: int| 0 <= a < out@.len() ==> out@[a] < next,
            forall|q: int| p <= q < next ==> #[trigger] covered_before(t@, pat@, q, p as int),
            forall|q: usize| out@.contains(q) <==> #[trigger] covered_before(t@, pat@, q as int, p as int),
        decreases n - p,
    {
        if occurs_at(&t, &pat, p) {
            let ghost out0 = out@;
            let mut q: usize = if next > p { next } else { p };
            assert forall|x: usize| p <= x < q implies #[trigger] out@.contains(x) by {
                assert(covered_before(t@, pat@, x as int, p as int));
            }
            assert forall|x: int| p <= x < q implies #[trigger] covered_before(t@, pat@, x, p + 1) by {
                assert(covered_before(t@, pat@, x, p as int));
            }
            while q < p + m
                invariant
                    t@ == text@,
                    pat@ == pattern@,
                    n == t@.len(),
                    m == pat@.len(),
                    p + m <= n,
                    matches_at(t@, pat@, p as int),
                    p <= q <= p + m,
                    next <= q,
                    ascending(out@),
                    forall|a: int| 0 <= a < out@.len() ==> out@[a] < q,
                    out0.len() <= out@.len(),
                    forall|a: int| 0 <= a < out0.len() ==> out@[a] == out0[a],
                    forall|a: int| out0.len() <= a < out@.len() ==> p <= #[trigger] out@[a] < q,
                    forall|x: usize| out0.contains(x) <==> #[trigger] covered_before(t@, pat@, x as int, p as int),
                    forall|x: int| p <= x < q ==> #[trigger] covered_before(t@, pat@, x, p + 1),
                    forall|x: int| p <= x < next ==> #[trigger] covered_before(t@, pat@, x, p as int),
                    forall|x: usize| p <= x < q ==> #[trigger] out@.contains(x),
                decreases p + m - q,
            {
                let ghost prev = out@;
                out.push(q);
                assert(out@.drop_last() =~= prev);
                assert(matches_at(t@, pat@, p as int) && p <= q < p + pat@.len());
                assert(covered_before(t@, pat@, q as int, p + 1));
                q = q + 1;
                assert forall|x: usize| p <= x < q implies #[trigger] out@.contains(x) by {
                    if x == q - 1 {
                        assert(out@[out@.len() - 1] == x);
                    } else {
                        assert(out@.drop_last().contains(x));
                        let a = choose|a: int| 0 <= a < out@.len() - 1 && out@.drop_last()[a] == x;
                        assert(out@[a] == x);
                    }
                }
            }
            proof {
                assert forall|x: usize| out@.contains(x) <==> #[trigger] covered_before(t@, pat@, x as int, p + 1) by {
                    if out@.contains(x) {
                        let a = choose|a: int| 0 <= a < out@.len() && out@[a] == x;
                        if a >= out0.len() {
                            assert(covered_before(t@, pat@, x as int, p + 1));
                        } else {
                            assert(out0[a] == x);
                            assert(out0.contains(x));
                            assert(covered_before(t@, pat@, x as int, p as int));
                            let w = choose|w: int| w < p && #[trigger] matches_at(t@, pat@, w) && w <= x < w + pat@.len();
                        }
                    }
                    if covered_before(t@, pat@, x as int, p + 1) {
                        let w = choose|w: int| w < p + 1 && #[trigger] matches_at(t@, pat@, w) && w <= x < w + pat@.len();
                        if w == p {
                            if x < next {
                                assert(covered_before(t@, pat@, x as int, p as int));
                                assert(out0.contains(x));
                                let a = choose|a: int| 0 <= a < out0.len() && out0[a] == x;
                                assert(out@[a] == x);
                            }
                        } else {
                            assert(covered_before(t@, pat@, x as int, p as int));
                            assert(out0.contains(x));
                            let a = choose|a: int| 0 <= a < out0.len() && out0[a] == x;
                            assert(out@[a] == x);
                        }
                    }
                }
            }
            next = p + m;
        } else {
            proof {
                assert forall|x: usize| out@.contains(x) <==> #[trigger] covered_before(t@, pat@, x as int, p + 1) by {
                    if covered_before(t@, pat@, x as int, p + 1) {
                        let w = choose|w: int| w < p + 1 && #[trigger] matches_at(t@, pat@, w) && w <= x < w + pat@.len();
                        assert(covered_before(t@, pat@, x as int, p as int));
                    }
                    if covered_before(t@, pat@, x as int, p as int) {
                        let w = choose|w: int| w < p && #[trigger] matches_at(t@, pat@, w) && w <= x < w + pat@.len();
                        assert(covered_before(t@, pat@, x as int, p + 1));
                    }
                }
                assert forall|x: int| p + 1 <= x < next implies #[trigger] covered_before(t@, pat@, x, p + 1) by {
                    assert(covered_before(t@, pat@, x, p as int));
                    let w = choose|w: int| w < p && #[trigger] matches_at(t@, pat@, w) && w <= x < w + pat@.len();
                }
            }
        }
        p = p + 1;
    }
    let mut entries: Vec<Annotation> = Vec::new();
    proof {
        assert forall|q: int| #[trigger] covered_before(t@, pat@, q, p as int) <==> covered(t@, pat@, q) by {
            if covered(t@, pat@, q) {
                let w = choose|w: int| #[trigger] matches_at(t@, pat@, w) && w <= q < w + pat@.len();
                assert(covered_before(t@, pat@, q, p as int));
            }
        }
    }
    if out.len() > 0 {
        entries.push(Annotation { id, positions: out });
        proof {
            assert(entries@.drop_last() =~= Seq::<Annotation>::empty());
            let x = out@[0];
            assert(out@.contains(x));
            assert(covered_before(t@, pat@, x as int, p as int));
        }
    } else {
        proof {
            if exists|w: int| matches_at(text@, pattern@, w) {
                let w = choose|w: int| matches_at(text@, pattern@, w);
                assert(covered_before(t@, pat@, w, p as int));
                assert(out@.contains(w as usize));
            }
        }
    }
    let ix = AnnotationIndex { entries };
    proof {
        assert forall|q: usize| out@.contains(q) <==> #[trigger] covered(text@, pattern@, q as int) by {
            assert(covered_before(t@, pat@, q as int, p as int) <==> covered(t@, pat@, q as int));
        }
        if out@.len() > 0 {
            assert(ix@ == map_of(Seq::<Annotation>::empty()).insert(id, out@));
        } else {
            assert(ix@ == Map::<u128, Seq<usize>>::empty());
        }
    }
    Ok(ix)
}

proof fn lemma_first_equal_at(script: Seq<EditOp>, c: char, from: int, p: int)
    requires
        0 <= from <= p,
        is_equal_at(script, p, c),
        forall|i: int| from <= i < p ==> !is_equal_at(script, i, c),
    ensures
        first_equal_from(script, c, from) == p,
    decreases p - from,
{
    if from < p {
        lemma_first_equal_at(script, c, from + 1, p);
    }
}

proof fn lemma_first_equal_none(script: Seq<EditOp>, c: char, from: int)
    requires
        0 <= from,
        forall|i: int| from <= i < script.len() ==> !is_equal_at(script, i, c),
    ensures
        first_equal_from(script, c, from) == script.len(),
    decreases script.len() - from,
{
    if from < script.len() {
        lemma_first_equal_none(script, c, from + 1);
    }
}

proof fn lemma_run_len_full(script: Seq<EditOp>, anchor: Seq<char>, start: int, k: int)
    requires
        0 <= k <= anchor.len(),
        forall|j: int| k <= j < anchor.len() ==> is_equal_at(script, start + j, anchor[j]),
    ensures
        run_len(script, anchor, start, k) == anchor.len() - k,
    decreases anchor.len() - k,
{
    if k < anchor.len() {
        lemma_run_len_full(script, anchor, start, k + 1);
    }
}

proof fn lemma_equal_kept_in_new(script: Seq<EditOp>, i: int, c: char)
    requires
        is_equal_at(script, i, c),
    ensures
        new_units(script).contains(c),
    decreases script.len(),
{
    let last = script.len() - 1;
    if i < last {
        assert(script.drop_last()[i] == script[i]);
        lemma_equal_kept_in_new(script.drop_last(), i, c);
        let w = choose|w: int| 0 <= w < new_units(script.drop_last()).len() && new_units(script.drop_last())[w] == c;
        assert(new_units(script)[w] == c);
    } else {
        assert(new_units(script).last() == c);
    }
}

/// `positions` is a run of consecutive positions of `text` whose first char
/// does not occur earlier in `text`.
pub open spec fn is_first_run(text: Seq<char>, positions: Seq<usize>) -> bool {
    &&& forall|j: int| 0 <= j < positions.len() ==> #[trigger] positions[j] < text.len()
    &&& forall|j: int| 0 <= j < positions.len() ==> #[trigger] positions[j] == positions[0] + j
    &&& positions.len() > 0 ==> forall|i: int| 0 <= i < positions[0] ==> #[trigger] text[i] != text[positions[0] as int]
}

/// Re-anchoring a span through the script that keeps a text unchanged gives
/// back the span's own positions, wherever the span is a run of consecutive
/// positions whose first char does not occur earlier in the text (otherwise
/// the re-anchoring starts at that earlier occurrence).
pub proof fn lemma_remap_identity(text: Seq<char>, script: Seq<EditOp>, positions: Seq<usize>)
    requires
        is_equal_script(script, text),
        is_first_run(text, positions),
    ensures
        remapped(anchor_of(text, positions), script) == positions,
{
    let anchor = anchor_of(text, positions);
    if positions.len() > 0 {
        let p0 = positions[0] as int;
        assert(script[p0] == (EditOp { tag: OpTag::Equal, unit: text[p0] }));
        assert forall|i: int| 0 <= i < p0 implies !is_equal_at(script, i, anchor[0]) by {
            assert(script[i] == (EditOp { tag: OpTag::Equal, unit: text[i] }));
        }
        lemma_first_equal_at(script, anchor[0], 0, p0);
        assert forall|j: int| 0 <= j < anchor.len() implies is_equal_at(script, p0 + j, anchor[j]) by {
            assert(positions[j] == p0 + j);
            assert(script[p0 + j] == (EditOp { tag: OpTag::Equal, unit: text[p0 + j] }));
        }
        lemma_run_len_full(script, anchor, p0, 0);
        assert(remapped(anchor, script) =~= positions);
    } else {
        assert(remapped(anchor, script) =~= positions);
    }
}

/// Carrying an index over to the unchanged text (through the script that
/// keeps every char) gives the index back, wherever each of its annotations
/// is a non-empty run of consecutive positions whose first char does not
/// occur earlier in the text.
pub proof fn lemma_index_identity(
    index: Map<u128, Seq<usize>>,
    text: Seq<char>,
    script: Seq<EditOp>,
)
    requires
        is_equal_script(script, text),
        forall|k: u128| #[trigger] index.contains_key(k) ==> index[k].len() > 0 && is_first_run(text, index[k]),
    ensures
        remapped_index(index, text, script) == index,
{
    assert forall|k: u128| index.contains_key(k) implies remapped(anchor_of(text, index[k]), script) == index[k] by {
        lemma_remap_identity(text, script, index[k]);
    }
    assert(remapped_index(index, text, script) =~= index);
}

/// A span none of whose chars occurs in the new text cannot be re-anchored:
/// nothing of it is found.
pub proof fn lemma_remap_total_loss(anchor: Seq<char>, script: Seq<EditOp>, new_text: Seq<char>)
    requires
        new_units(script) == new_text,
        forall|j: int, i: int| 0 <= j < anchor.len() && 0 <= i < new_text.len() ==> anchor[j] != new_text[i],
    ensures
        remapped(anchor, script).len() == 0,
{
    if anchor.len() > 0 {
        assert forall|i: int| 0 <= i < script.len() implies !is_equal_at(script, i, anchor[0]) by {
            if is_equal_at(script, i, anchor[0]) {
                lemma_equal_kept_in_new(script, i, anchor[0]);
            }
        }
        lemma_first_equal_none(script, anchor[0], 0);
    }
}

/// An annotation none of whose chars occurs in the new text is absent from
/// the carried-over index.
pub proof fn lemma_index_total_loss(
    index: Map<u128, Seq<usize>>,
    old_text: Seq<char>,
    new_text: Seq<char>,
    script: Seq<EditOp>,
    id: u128,
)
    requires
        new_units(script) == new_text,
        index.contains_key(id),
        forall|j: int, i: int|
            0 <= j < index[id].len() && 0 <= i < new_text.len() ==> old_text[index[id][j] as int]
                != new_text[i],
    ensures
        !remapped_index(index, old_text, script).contains_key(id),
{
    let anchor = anchor_of(old_text, index[id]);
    assert forall|j: int, i: int| 0 <= j < anchor.len() && 0 <= i < new_text.len() implies anchor[j] != new_text[i] by {}
    lemma_remap_total_loss(anchor, script, new_text);
}

/// Carrying an index over is deterministic: two results for the same index
/// and the same two texts are the same index.
pub proof fn lemma_update_deterministic(
    index: Map<u128, Seq<usize>>,
    old_text: Seq<char>,
    new_text: Seq<char>,
    first: Map<u128, Seq<usize>>,
    second: Map<u128, Seq<usize>>,
)
    requires
        first == remapped_index(index, old_text, diff_of(old_text, new_text)),
        second == remapped_index(index, old_text, diff_of(old_text, new_text)),
    ensures
        first == second,
{
}

} // verus!
