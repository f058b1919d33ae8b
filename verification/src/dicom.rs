//! Decoded records, the per-key statistics computed across a record batch,
//! and the two strategies that build a navigable tree from them: one subtree
//! per record in source order, or one subtree per distinct key merged across
//! all records and filtered by how many distinct values the key shows.

use vstd::prelude::*;
use crate::text::{
    dec_spec, hex4_spec, len_display_spec, pad_spec, PLACEHOLDER_WIDTH, UNDEFINED_LENGTH,
};

verus! {

/// One decoded element: its (group, element) key, the dictionary name of the
/// key, the value representation, the rendered value and the value length in
/// bytes (or the unknown-length sentinel).
#[derive(Debug)]
pub struct RecordElement {
    pub group: u16,
    pub element: u16,
    pub name: String,
    pub vr: String,
    pub value: String,
    pub length: u32,
}

/// One decoded record: its display name and its elements in source order.
#[derive(Debug)]
pub struct Record {
    pub name: String,
    pub elements: Vec<RecordElement>,
}

/// Per-key statistics: how many distinct rendered values the key shows
/// across all records, and the largest observed length when the lengths
/// vary (`None` when every occurrence has the same length, so no padding is
/// needed).
#[derive(Debug, Clone, Copy)]
pub struct TagStats {
    pub num_values: usize,
    pub max_length: Option<u32>,
}

/// All elements of a record batch, record by record, in source order.
pub open spec fn all_elems(records: Seq<Record>) -> Seq<RecordElement>
    decreases records.len(),
{
    if records.len() == 0 {
        Seq::empty()
    } else {
        all_elems(records.drop_last()) + records.last().elements@
    }
}

/// Append `v` unless it is already present: the order-preserving set insert.
pub open spec fn distinct_push<A>(s: Seq<A>, v: A) -> Seq<A> {
    if s.contains(v) {
        s
    } else {
        s.push(v)
    }
}

/// The distinct rendered values of key `(g, el)` in first-seen order.
pub open spec fn distinct_values(es: Seq<RecordElement>, g: u16, el: u16) -> Seq<Seq<char>>
    decreases es.len(),
{
    if es.len() == 0 {
        Seq::empty()
    } else {
        let p = distinct_values(es.drop_last(), g, el);
        if es.last().group == g && es.last().element == el {
            distinct_push(p, es.last().value@)
        } else {
            p
        }
    }
}

/// The distinct value lengths of key `(g, el)` in first-seen order.
pub open spec fn distinct_lengths(es: Seq<RecordElement>, g: u16, el: u16) -> Seq<u32>
    decreases es.len(),
{
    if es.len() == 0 {
        Seq::empty()
    } else {
        let p = distinct_lengths(es.drop_last(), g, el);
        if es.last().group == g && es.last().element == el {
            distinct_push(p, es.last().length)
        } else {
            p
        }
    }
}

/// The largest entry of a sequence of lengths (0 when empty).
pub open spec fn seq_max_u32(s: Seq<u32>) -> u32
    decreases s.len(),
{
    if s.len() == 0 {
        0
    } else {
        let m = seq_max_u32(s.drop_last());
        if s.last() > m {
            s.last()
        } else {
            m
        }
    }
}

/// Whether key `(g, el)` occurs anywhere in the elements.
pub open spec fn key_present(es: Seq<RecordElement>, g: u16, el: u16) -> bool {
    exists|i: int| 0 <= i < es.len() && es[i].group == g && es[i].element == el
}

/// What the statistics of key `(g, el)` must say.
pub open spec fn stats_ok(es: Seq<RecordElement>, g: u16, el: u16, ts: TagStats) -> bool {
    &&& ts.num_values == distinct_values(es, g, el).len()
    &&& ts.max_length == (if distinct_lengths(es, g, el).len() > 1 {
        Option::Some(seq_max_u32(distinct_lengths(es, g, el)))
    } else {
        Option::<u32>::None
    })
}

/// Last-match lookup in an association list of statistics.
pub open spec fn stats_lookup(s: Seq<((u16, u16), TagStats)>, g: u16, el: u16) -> Option<TagStats>
    decreases s.len(),
{
    if s.len() == 0 {
        Option::None
    } else if s.last().0 == (g, el) {
        Option::Some(s.last().1)
    } else {
        stats_lookup(s.drop_last(), g, el)
    }
}

/// A key that never occurs has no distinct values and no distinct lengths.
proof fn lemma_absent_empty(es: Seq<RecordElement>, g: u16, el: u16)
    requires
        !key_present(es, g, el),
    ensures
        distinct_values(es, g, el) =~= Seq::<Seq<char>>::empty(),
        distinct_lengths(es, g, el) =~= Seq::<u32>::empty(),
    decreases es.len(),
{
    if es.len() > 0 {
        assert(!key_present(es.drop_last(), g, el)) by {
            if key_present(es.drop_last(), g, el) {
                let i = choose|i: int|
                    0 <= i < es.drop_last().len() && es.drop_last()[i].group == g
                        && es.drop_last()[i].element == el;
                assert(es[i].group == g && es[i].element == el);
            }
        }
        lemma_absent_empty(es.drop_last(), g, el);
        assert(!(es.last().group == g && es.last().element == el)) by {
            if es.last().group == g && es.last().element == el {
                assert(es[es.len() - 1].group == g && es[es.len() - 1].element == el);
            }
        }
    }
}

/// Growing the element prefix by one record keeps earlier elements in place.
proof fn lemma_all_elems_take(records: Seq<Record>, i: int)
    requires
        0 <= i < records.len(),
    ensures
        all_elems(records.take(i + 1)) == all_elems(records.take(i)) + records[i].elements@,
{
    assert(records.take(i + 1).drop_last() =~= records.take(i));
    assert(records.take(i + 1).last() == records[i]);
}

/// One accumulator entry while the statistics are gathered.
struct StatsAcc {
    group: u16,
    element: u16,
    values: Vec<String>,
    lengths: Vec<u32>,
}

/// Whether a rendered value is already among the collected ones.
#[verifier::loop_isolation(false)]
fn vec_string_contains(v: &Vec<String>, x: &String) -> (r: bool)
    ensures
        r == v@.map_values(|s: String| s@).contains(x@),
{
    let ghost mapped = v@.map_values(|s: String| s@);
    let mut i: usize = 0;
    while i < v.len()
        invariant
            i <= v@.len(),
            forall|j: int| 0 <= j < i ==> v@[j]@ != x@,
        decreases v@.len() - i,
    {
        if crate::text::str_eq(v[i].as_str(), x.as_str()) {
            proof {
                assert(mapped[i as int] == x@);
            }
            return true;
        }
        i = i + 1;
    }
    proof {
        if mapped.contains(x@) {
            let j = choose|j: int| 0 <= j < mapped.len() && mapped[j] == x@;
            assert(v@[j]@ == x@);
            assert(false);
        }
    }
    false
}

/// Whether a length is already among the collected ones.
#[verifier::loop_isolation(false)]
fn vec_u32_contains(v: &Vec<u32>, x: u32) -> (r: bool)
    ensures
        r == v@.contains(x),
{
    let mut i: usize = 0;
    while i < v.len()
        invariant
            i <= v@.len(),
            forall|j: int| 0 <= j < i ==> v@[j] != x,
        decreases v@.len() - i,
    {
        if v[i] == x {
            return true;
        }
        i = i + 1;
    }
    proof {
        if v@.contains(x) {
            let j = choose|j: int| 0 <= j < v@.len() && v@[j] == x;
            assert(false);
        }
    }
    false
}

/// The accumulator matches the statistics of the elements seen so far.
spec fn acc_ok(acc: Seq<StatsAcc>, es: Seq<RecordElement>) -> bool {
    &&& forall|m1: int, m2: int|
        0 <= m1 < m2 < acc.len() ==> !((#[trigger] acc[m1]).group == (#[trigger] acc[m2]).group
            && acc[m1].element == acc[m2].element)
    &&& forall|m: int|
        0 <= m < acc.len() ==> key_present(es, (#[trigger] acc[m]).group, acc[m].element)
    &&& forall|g: u16, el: u16|
        #[trigger] key_present(es, g, el) ==> exists|m: int|
            0 <= m < acc.len() && (#[trigger] acc[m]).group == g && acc[m].element == el
    &&& forall|m: int|
        0 <= m < acc.len() ==> (#[trigger] acc[m]).values@.map_values(|s: String| s@)
            == distinct_values(es, acc[m].group, acc[m].element) && acc[m].lengths@
            == distinct_lengths(es, acc[m].group, acc[m].element)
}

/// For every key of the batch: how many distinct rendered values it shows,
/// and the largest observed length when lengths vary. Keys that never occur
/// are absent from the result; each occurring key appears exactly once.
#[verifier::loop_isolation(false)]
pub fn num_distinct_values_and_max_length_by_tag(records: &Vec<Record>) -> (r: Vec<
    ((u16, u16), TagStats),
>)
    ensures
        forall|g: u16, el: u16|
            match #[trigger] stats_lookup(r@, g, el) {
                Option::Some(ts) => key_present(all_elems(records@), g, el) && stats_ok(
                    all_elems(records@),
                    g,
                    el,
                    ts,
                ),
                Option::None => !key_present(all_elems(records@), g, el),
            },
{
    let mut acc: Vec<StatsAcc> = Vec::new();
    let ghost mut done: Seq<RecordElement> = Seq::empty();
    let mut i: usize = 0;
    while i < records.len()
        invariant
            i <= records@.len(),
            done == all_elems(records@.take(i as int)),
            acc_ok(acc@, done),
        decreases records@.len() - i,
    {
        let record = &records[i];
        let mut j: usize = 0;
        while j < record.elements.len()
            invariant
                0 <= i < records@.len(),
                j <= records@[i as int].elements@.len(),
                record == &records@[i as int],
                done == all_elems(records@.take(i as int)) + records@[i as int].elements@.take(
                    j as int,
                ),
                acc_ok(acc@, done),
            decreases record.elements@.len() - j,
        {
            let e = &record.elements[j];
            let ghost done0 = done;
            proof {
                assert(records@[i as int].elements@.take(j + 1) =~= records@[i as int].elements@.take(
                    j as int,
                ).push(records@[i as int].elements@[j as int]));
                done = done0.push(*e);
                assert(done =~= all_elems(records@.take(i as int)) + records@[i as int].elements@.take(
                    j + 1,
                ));
                // stepping the distinct sequences by one element
                assert(done.drop_last() =~= done0);
                assert forall|g: u16, el: u16|
                    distinct_values(done, g, el) == (if e.group == g && e.element == el {
                        distinct_push(#[trigger] distinct_values(done0, g, el), e.value@)
                    } else {
                        distinct_values(done0, g, el)
                    }) && distinct_lengths(done, g, el) == (if e.group == g && e.element == el {
                        distinct_push(distinct_lengths(done0, g, el), e.length)
                    } else {
                        distinct_lengths(done0, g, el)
                    }) by {
                    assert(done.last() == *e);
                }
            }
            // find the entry for this key
            let mut idx: usize = 0;
            let mut found = false;
            loop
                invariant
                    idx <= acc@.len(),
                    !found ==> forall|m: int|
                        0 <= m < idx ==> !((#[trigger] acc@[m]).group == e.group && acc@[m].element
                            == e.element),
                    found ==> idx < acc@.len() && acc@[idx as int].group == e.group
                        && acc@[idx as int].element == e.element,
                decreases acc@.len() - idx,
            {
                if idx >= acc.len() {
                    break ;
                }
                if acc[idx].group == e.group && acc[idx].element == e.element {
                    found = true;
                    break ;
                }
                idx = idx + 1;
            }
            if found {
                let has_value = vec_string_contains(&acc[idx].values, &e.value);
                let has_length = vec_u32_contains(&acc[idx].lengths, e.length);
                let ghost old_acc = acc@;
                let entry = &mut acc[idx];
                if !has_value {
                    entry.values.push(e.value.clone());
                }
                if !has_length {
                    entry.lengths.push(e.length);
                }
                proof {
                    assert(acc@[idx as int].values@.map_values(|s: String| s@) =~= distinct_push(
                        old_acc[idx as int].values@.map_values(|s: String| s@),
                        e.value@,
                    ));
                    assert forall|m: int|
                        0 <= m < acc@.len() && m != idx implies acc@[m] == old_acc[m] by {}
                    assert(acc_ok(acc@, done)) by {
                        assert forall|g: u16, el: u16|
                            #[trigger] key_present(done, g, el) implies exists|m: int|
                            0 <= m < acc@.len() && (#[trigger] acc@[m]).group == g && acc@[m].element
                                == el by {
                            if key_present(done0, g, el) {
                                let m = choose|m: int|
                                    0 <= m < old_acc.len() && (#[trigger] old_acc[m]).group == g
                                        && old_acc[m].element == el;
                                assert(acc@[m].group == g && acc@[m].element == el);
                            } else {
                                let w = choose|w: int|
                                    0 <= w < done.len() && done[w].group == g && done[w].element
                                        == el;
                                assert(done[done.len() - 1] == *e);
                                assert(g == e.group && el == e.element);
                                assert(acc@[idx as int].group == g && acc@[idx as int].element
                                    == el);
                            }
                        }
                        assert forall|m: int|
                            0 <= m < acc@.len() implies key_present(
                            done,
                            (#[trigger] acc@[m]).group,
                            acc@[m].element,
                        ) by {
                            assert(key_present(done0, old_acc[m].group, old_acc[m].element));
                            let w = choose|w: int|
                                0 <= w < done0.len() && done0[w].group == old_acc[m].group
                                    && done0[w].element == old_acc[m].element;
                            assert(done[w] == done0[w]);
                        }
                    }
                }
            } else {
                let mut values: Vec<String> = Vec::new();
                values.push(e.value.clone());
                let mut lengths: Vec<u32> = Vec::new();
                lengths.push(e.length);
                let ghost old_acc = acc@;
                acc.push(StatsAcc { group: e.group, element: e.element, values, lengths });
                proof {
                    // this key was never seen before, or some entry would hold it
                    assert(!key_present(done0, e.group, e.element)) by {
                        if key_present(done0, e.group, e.element) {
                            let m = choose|m: int|
                                0 <= m < old_acc.len() && (#[trigger] old_acc[m]).group == e.group
                                    && old_acc[m].element == e.element;
                            assert(false);
                        }
                    }
                    lemma_absent_empty(done0, e.group, e.element);
                    assert(acc@.last().values@.map_values(|s: String| s@) =~= distinct_values(
                        done,
                        e.group,
                        e.element,
                    ));
                    assert(acc_ok(acc@, done)) by {
                        assert forall|g: u16, el: u16|
                            #[trigger] key_present(done, g, el) implies exists|m: int|
                            0 <= m < acc@.len() && (#[trigger] acc@[m]).group == g && acc@[m].element
                                == el by {
                            if key_present(done0, g, el) {
                                let m = choose|m: int|
                                    0 <= m < old_acc.len() && (#[trigger] old_acc[m]).group == g
                                        && old_acc[m].element == el;
                                assert(acc@[m].group == g && acc@[m].element == el);
                            } else {
                                let w = choose|w: int|
                                    0 <= w < done.len() && done[w].group == g && done[w].element
                                        == el;
                                assert(done[done.len() - 1] == *e);
                                assert(acc@[acc@.len() - 1].group == g && acc@[acc@.len()
                                    - 1].element == el);
                            }
                        }
                        assert forall|m: int|
                            0 <= m < acc@.len() implies key_present(
                            done,
                            (#[trigger] acc@[m]).group,
                            acc@[m].element,
                        ) by {
                            if m < old_acc.len() {
                                assert(key_present(done0, old_acc[m].group, old_acc[m].element));
                                let w = choose|w: int|
                                    0 <= w < done0.len() && done0[w].group == old_acc[m].group
                                        && done0[w].element == old_acc[m].element;
                                assert(done[w] == done0[w]);
                            } else {
                                assert(done[done.len() - 1] == *e);
                            }
                        }
                        assert forall|m: int|
                            0 <= m < acc@.len() implies (#[trigger] acc@[m]).values@.map_values(
                            |s: String| s@,
                        ) == distinct_values(done, acc@[m].group, acc@[m].element)
                            && acc@[m].lengths@ == distinct_lengths(
                            done,
                            acc@[m].group,
                            acc@[m].element,
                        ) by {
                            if m < old_acc.len() {
                                assert(acc@[m] == old_acc[m]);
                            }
                        }
                    }
                }
            }
            j = j + 1;
        }
        proof {
            lemma_all_elems_take(records@, i as int);
            assert(records@[i as int].elements@.take(records@[i as int].elements@.len() as int)
                =~= records@[i as int].elements@);
        }
        i = i + 1;
    }
    proof {
        assert(records@.take(records@.len() as int) =~= records@);
    }
    // turn the accumulator into the final statistics
    let mut r: Vec<((u16, u16), TagStats)> = Vec::new();
    let mut m: usize = 0;
    while m < acc.len()
        invariant
            m <= acc@.len(),
            acc_ok(acc@, all_elems(records@)),
            r@.len() == m as int,
            forall|w: int|
                0 <= w < m ==> (#[trigger] r@[w]).0 == (acc@[w].group, acc@[w].element) && stats_ok(
                    all_elems(records@),
                    acc@[w].group,
                    acc@[w].element,
                    r@[w].1,
                ),
        decreases acc@.len() - m,
    {
        let entry = &acc[m];
        let max_length: Option<u32> = if entry.lengths.len() > 1 {
            let mut mx: u32 = 0;
            let mut w: usize = 0;
            while w < entry.lengths.len()
                invariant
                    w <= entry.lengths@.len(),
                    entry == &acc@[m as int],
                    0 <= m < acc@.len(),
                    mx == seq_max_u32(entry.lengths@.take(w as int)),
                decreases entry.lengths@.len() - w,
            {
                proof {
                    assert(entry.lengths@.take(w + 1).drop_last() =~= entry.lengths@.take(
                        w as int,
                    ));
                }
                if entry.lengths[w] > mx {
                    mx = entry.lengths[w];
                }
                w = w + 1;
            }
            proof {
                assert(entry.lengths@.take(entry.lengths@.len() as int) =~= entry.lengths@);
            }
            Some(mx)
        } else {
            None
        };
        proof {
            assert(entry.values@.map_values(|s: String| s@).len() == entry.values@.len());
        }
        let ts = TagStats { num_values: entry.values.len(), max_length };
        r.push(((entry.group, entry.element), ts));
        m = m + 1;
    }
    proof {
        let es = all_elems(records@);
        assert forall|g: u16, el: u16|
            match #[trigger] stats_lookup(r@, g, el) {
                Option::Some(ts) => key_present(es, g, el) && stats_ok(es, g, el, ts),
                Option::None => !key_present(es, g, el),
            } by {
            lemma_stats_lookup_assoc(r@, g, el);
            match stats_lookup(r@, g, el) {
                Option::Some(ts) => {
                    let w = choose|w: int| 0 <= w < r@.len() && r@[w] == ((g, el), ts);
                    assert(r@[w].0 == (acc@[w].group, acc@[w].element));
                    assert(key_present(es, acc@[w].group, acc@[w].element));
                },
                Option::None => {
                    if key_present(es, g, el) {
                        let m2 = choose|m2: int|
                            0 <= m2 < acc@.len() && (#[trigger] acc@[m2]).group == g
                                && acc@[m2].element == el;
                        assert(r@[m2].0 == (g, el));
                        assert(false);
                    }
                },
            }
        }
    }
    r
}

/// In an association list, the lookup finds an entry exactly when one with
/// the key exists.
proof fn lemma_stats_lookup_assoc(s: Seq<((u16, u16), TagStats)>, g: u16, el: u16)
    ensures
        match stats_lookup(s, g, el) {
            Option::Some(ts) => exists|w: int| 0 <= w < s.len() && s[w] == ((g, el), ts),
            Option::None => forall|w: int| 0 <= w < s.len() ==> (#[trigger] s[w]).0 != (g, el),
        },
    decreases s.len(),
{
    if s.len() > 0 {
        if s.last().0 == (g, el) {
            assert(s[s.len() - 1] == ((g, el), s.last().1));
        } else {
            lemma_stats_lookup_assoc(s.drop_last(), g, el);
            match stats_lookup(s.drop_last(), g, el) {
                Option::Some(ts) => {
                    let w = choose|w: int|
                        0 <= w < s.drop_last().len() && s.drop_last()[w] == ((g, el), ts);
                    assert(s[w] == ((g, el), ts));
                },
                Option::None => {
                    assert forall|w: int| 0 <= w < s.len() implies (#[trigger] s[w]).0 != (
                    g,
                    el,
                    ) by {
                        if w < s.len() - 1 {
                            assert(s.drop_last()[w] == s[w]);
                        }
                    }
                },
            }
        }
    }
}

/// The record batch together with its statistics.
#[derive(Debug)]
pub struct DicomData {
    pub root_path: String,
    pub records: Vec<Record>,
    pub stats: Vec<((u16, u16), TagStats)>,
}

impl DicomData {
    /// The stored statistics describe the stored records.
    pub open spec fn wf(self) -> bool {
        forall|g: u16, el: u16|
            match #[trigger] stats_lookup(self.stats@, g, el) {
                Option::Some(ts) => key_present(all_elems(self.records@), g, el) && stats_ok(
                    all_elems(self.records@),
                    g,
                    el,
                    ts,
                ),
                Option::None => !key_present(all_elems(self.records@), g, el),
            }
    }

    /// Take a decoded record batch and compute its statistics once; the
    /// batch is immutable afterwards.
    pub fn new(root_path: String, records: Vec<Record>) -> (d: DicomData)
        ensures
            d.wf(),
            d.root_path == root_path,
            d.records == records,
    {
        let stats = num_distinct_values_and_max_length_by_tag(&records);
        DicomData { root_path, records, stats }
    }
}

/// The ghost image of one node: its label, its parent and its source tag.
/// Children lists are left out: under the arena invariant they are fully
/// determined by the parents.
pub struct NodeV {
    pub text: Seq<char>,
    pub parent: Option<crate::tree_widget::Id>,
    pub source: Option<(u16, u16, Seq<char>)>,
}

/// The ghost image of a stored node.
pub open spec fn node_v(n: crate::tree_widget::TreeNode) -> NodeV {
    NodeV {
        text: n.text@,
        parent: n.parent_id,
        source: match n.source {
            Option::Some(ts) => Option::Some((ts.group, ts.element, ts.filename@)),
            Option::None => Option::None,
        },
    }
}

/// The ghost image of a whole tree: one [`NodeV`] per node, in id order.
pub open spec fn tree_v(t: crate::tree_widget::TreeWidget) -> Seq<NodeV> {
    t.nodes@.map_values(|n: crate::tree_widget::TreeNode| node_v(n))
}

/// The group of the key that carries bulk pixel data; its values are never
/// printed, only their length.
pub const PIXEL_DATA_GROUP: u16 = 0x7fe0;

/// The element of the key that carries bulk pixel data.
pub const PIXEL_DATA_ELEMENT: u16 = 0x0010;

/// The label of a leaf in a source-order tree: element key, name, value
/// representation, length and rendered value.
pub open spec fn src_leaf_label_spec(e: RecordElement) -> Seq<char> {
    hex4_spec(e.element) + " "@ + e.name@ + " ("@ + e.vr@ + ", "@ + len_display_spec(e.length)
        + "): "@ + e.value@
}

/// The label of a key node in a merged tree. The length is shown only when
/// it is the same in every record (otherwise each leaf shows its own).
pub open spec fn key_label_spec(e: RecordElement, max_length: Option<u32>) -> Seq<char> {
    hex4_spec(e.element) + " "@ + e.name@ + " ("@ + e.vr@ + (if max_length is Some {
        Seq::<char>::empty()
    } else {
        ", "@ + len_display_spec(e.length)
    }) + ")"@
}

/// The effective length of an element: unknown lengths get the placeholder
/// width.
pub open spec fn effective_len(e: RecordElement) -> int {
    if e.length == UNDEFINED_LENGTH {
        PLACEHOLDER_WIDTH as int
    } else {
        e.length as int
    }
}

/// The label of a leaf in a merged tree: the value padded to the key's
/// column width, the length and the record name — or only length and record
/// name for bulk pixel data.
pub open spec fn merged_leaf_label_spec(
    e: RecordElement,
    fname: Seq<char>,
    max_length: Option<u32>,
) -> Seq<char> {
    let tail = "["@ + dec_spec(effective_len(e)) + "] - "@ + fname;
    if e.group == PIXEL_DATA_GROUP && e.element == PIXEL_DATA_ELEMENT {
        tail
    } else {
        let width = match max_length {
            Option::Some(m) => m as int,
            Option::None => effective_len(e),
        };
        pad_spec(e.value@, width) + tail
    }
}

/// How many distinct values a key shows across the whole batch.
pub open spec fn key_count(records: Seq<Record>, g: u16, el: u16) -> int {
    distinct_values(all_elems(records), g, el).len() as int
}

/// The column width of a key: the largest observed length when lengths
/// vary, nothing otherwise.
pub open spec fn key_maxlen(records: Seq<Record>, g: u16, el: u16) -> Option<u32> {
    if distinct_lengths(all_elems(records), g, el).len() > 1 {
        Option::Some(seq_max_u32(distinct_lengths(all_elems(records), g, el)))
    } else {
        Option::<u32>::None
    }
}

/// The folding state of the source-order builder: the nodes built so far and
/// the group node currently collecting leaves.
pub struct SrcState {
    pub nodes: Seq<NodeV>,
    pub cur_group: Option<u16>,
    pub gid: crate::tree_widget::Id,
}

/// One element of a record appended to a source-order tree: a fresh group
/// node whenever the group changes, then the leaf.
pub open spec fn src_step(
    s: SrcState,
    rid: crate::tree_widget::Id,
    name: Seq<char>,
    e: RecordElement,
) -> SrcState {
    let s1 = if s.cur_group == Option::Some(e.group) {
        s
    } else {
        SrcState {
            nodes: s.nodes.push(
                NodeV { text: hex4_spec(e.group), parent: Option::Some(rid), source: Option::None },
            ),
            cur_group: Option::Some(e.group),
            gid: s.nodes.len() as crate::tree_widget::Id,
        }
    };
    SrcState {
        nodes: s1.nodes.push(
            NodeV {
                text: src_leaf_label_spec(e),
                parent: Option::Some(s1.gid),
                source: Option::Some((e.group, e.element, name)),
            },
        ),
        ..s1
    }
}

/// A whole record folded into a source-order tree.
pub open spec fn src_rec(
    s: SrcState,
    rid: crate::tree_widget::Id,
    name: Seq<char>,
    es: Seq<RecordElement>,
) -> SrcState
    decreases es.len(),
{
    if es.len() == 0 {
        s
    } else {
        src_step(src_rec(s, rid, name, es.drop_last()), rid, name, es.last())
    }
}

/// Several records folded into a source-order tree: one child of the root
/// per record, holding that record's groups and leaves.
pub open spec fn src_multi(nodes: Seq<NodeV>, records: Seq<Record>) -> Seq<NodeV>
    decreases records.len(),
{
    if records.len() == 0 {
        nodes
    } else {
        let prev = src_multi(nodes, records.drop_last());
        let rid = prev.len() as crate::tree_widget::Id;
        let withrec = prev.push(
            NodeV { text: records.last().name@, parent: Option::Some(0), source: Option::None },
        );
        src_rec(
            SrcState { nodes: withrec, cur_group: Option::None, gid: rid },
            rid,
            records.last().name@,
            records.last().elements@,
        ).nodes
    }
}

/// The nodes of the source-order tree: one subtree per record under the
/// root, or the single record's groups directly under the root.
pub open spec fn src_tree(root_label: Seq<char>, records: Seq<Record>) -> Seq<NodeV> {
    let root = seq![
        NodeV {
            text: root_label,
            parent: Option::<crate::tree_widget::Id>::None,
            source: Option::None,
        },
    ];
    if records.len() == 1 {
        src_rec(
            SrcState { nodes: root, cur_group: Option::None, gid: 0 },
            0,
            records[0].name@,
            records[0].elements@,
        ).nodes
    } else {
        src_multi(root, records)
    }
}

/// Folding a concatenation folds the parts one after the other.
proof fn lemma_src_rec_app(
    s: SrcState,
    rid: crate::tree_widget::Id,
    name: Seq<char>,
    a: Seq<RecordElement>,
    b: Seq<RecordElement>,
)
    ensures
        src_rec(s, rid, name, a + b) == src_rec(src_rec(s, rid, name, a), rid, name, b),
    decreases b.len(),
{
    if b.len() == 0 {
        assert(a + b =~= a);
    } else {
        assert((a + b).drop_last() =~= a + b.drop_last());
        assert((a + b).last() == b.last());
        lemma_src_rec_app(s, rid, name, a, b.drop_last());
    }
}

/// Folding never removes nodes.
proof fn lemma_src_rec_len(
    s: SrcState,
    rid: crate::tree_widget::Id,
    name: Seq<char>,
    es: Seq<RecordElement>,
)
    ensures
        src_rec(s, rid, name, es).nodes.len() >= s.nodes.len(),
    decreases es.len(),
{
    if es.len() > 0 {
        lemma_src_rec_len(s, rid, name, es.drop_last());
    }
}

/// After one `add_child`, the ghost image of the tree is the old image with
/// one node appended: the parent's image is unchanged because children lists
/// are not part of it.
pub proof fn lemma_tree_v_after_add(
    a: crate::tree_widget::TreeWidget,
    b: crate::tree_widget::TreeWidget,
    parent_id: crate::tree_widget::Id,
    textv: Seq<char>,
    source_v: Option<(u16, u16, Seq<char>)>,
)
    requires
        0 <= parent_id < a.nodes@.len(),
        b.nodes@.len() == a.nodes@.len() + 1,
        b.nodes@[a.nodes@.len() as int].text@ == textv,
        b.nodes@[a.nodes@.len() as int].parent_id == Some(parent_id),
        node_v(b.nodes@[a.nodes@.len() as int]).source == source_v,
        forall|i: int|
            0 <= i < a.nodes@.len() && i != parent_id ==> b.nodes@[i] == a.nodes@[i],
        b.nodes@[parent_id as int].text == a.nodes@[parent_id as int].text,
        b.nodes@[parent_id as int].parent_id == a.nodes@[parent_id as int].parent_id,
        b.nodes@[parent_id as int].source == a.nodes@[parent_id as int].source,
    ensures
        tree_v(b) =~= tree_v(a).push(
            NodeV { text: textv, parent: Some(parent_id), source: source_v },
        ),
{
    assert forall|i: int| 0 <= i < a.nodes@.len() implies tree_v(b)[i] == tree_v(a)[i] by {
        assert(tree_v(b)[i] == node_v(b.nodes@[i]));
        assert(tree_v(a)[i] == node_v(a.nodes@[i]));
    }
    assert(tree_v(b)[a.nodes@.len() as int] == node_v(b.nodes@[a.nodes@.len() as int]));
}

/// One element of the record in source order: starts a new group node when
/// the group changes, then appends the element's leaf under the current
/// group node.
#[verifier::loop_isolation(false)]
#[verifier::rlimit(100)]
pub fn read_data_into_tree(
    t: &mut crate::tree_widget::TreeWidget,
    filename: &String,
    record: &Record,
    parent_id: crate::tree_widget::Id,
)
    requires
        old(t).wf(),
        old(t).valid(parent_id as int),
        src_rec(
            SrcState { nodes: tree_v(*old(t)), cur_group: Option::None, gid: parent_id },
            parent_id,
            filename@,
            record.elements@,
        ).nodes.len() <= usize::MAX,
    ensures
        final(t).wf(),
        tree_v(*final(t)) == src_rec(
            SrcState { nodes: tree_v(*old(t)), cur_group: Option::None, gid: parent_id },
            parent_id,
            filename@,
            record.elements@,
        ).nodes,
        final(t).root_id == old(t).root_id,
        final(t).selected_id == old(t).selected_id,
        final(t).visible_start_id == old(t).visible_start_id,
        final(t).open_nodes@ == old(t).open_nodes@,
{
    let ghost s0 = SrcState { nodes: tree_v(*old(t)), cur_group: Option::None, gid: parent_id };
    let ghost es = record.elements@;
    let mut cur_group: Option<u16> = None;
    let mut gid: crate::tree_widget::Id = parent_id;
    let mut j: usize = 0;
    proof {
        assert(es.take(0) =~= Seq::<RecordElement>::empty());
    }
    while j < record.elements.len()
        invariant
            j <= es.len(),
            t.wf(),
            t.valid(parent_id as int),
            t.valid(gid as int),
            t.root_id == old(t).root_id,
            t.selected_id == old(t).selected_id,
            t.visible_start_id == old(t).visible_start_id,
            t.open_nodes@ == old(t).open_nodes@,
            (SrcState { nodes: tree_v(*t), cur_group, gid }) == src_rec(
                s0,
                parent_id,
                filename@,
                es.take(j as int),
            ),
        decreases es.len() - j,
    {
        let e = &record.elements[j];
        let ghost mid = src_rec(s0, parent_id, filename@, es.take(j as int));
        proof {
            // the fold result for one more element
            assert(es.take(j + 1).drop_last() =~= es.take(j as int));
            assert(es.take(j + 1).last() == es[j as int]);
            // what remains to fold keeps the total below the bound
            assert(es =~= es.take(j + 1) + es.skip(j + 1));
            lemma_src_rec_app(s0, parent_id, filename@, es.take(j + 1), es.skip(j + 1));
            lemma_src_rec_len(
                src_rec(s0, parent_id, filename@, es.take(j + 1)),
                parent_id,
                filename@,
                es.skip(j + 1),
            );
        }
        let new_group = match cur_group {
            Some(g) => g != e.group,
            None => true,
        };
        if new_group {
            proof {
                assert(src_rec(s0, parent_id, filename@, es.take(j + 1)).nodes.len() == tree_v(
                    *t,
                ).len() + 2);
                assert(tree_v(*t).len() + 2 <= usize::MAX);
                assert(tree_v(*t).len() == t.nodes@.len());
            }
            let ghost pre = *t;
            let label = crate::text::hex4(e.group);
            gid = t.add_child(label.as_str(), parent_id, None);
            cur_group = Some(e.group);
            proof {
                lemma_tree_v_after_add(pre, *t, parent_id, hex4_spec(e.group), Option::None);
            }
        }
        proof {
            assert(src_rec(s0, parent_id, filename@, es.take(j + 1)).nodes.len() >= tree_v(
                *t,
            ).len() + 1);
            assert(tree_v(*t).len() == t.nodes@.len());
        }
        let ghost pre2 = *t;
        let leaf_label = src_leaf_label(e);
        let src = crate::tree_widget::TagSource {
            group: e.group,
            element: e.element,
            filename: filename.clone(),
        };
        t.add_child(leaf_label.as_str(), gid, Some(src));
        proof {
            lemma_tree_v_after_add(
                pre2,
                *t,
                gid,
                src_leaf_label_spec(*e),
                Option::Some((e.group, e.element, filename@)),
            );
            assert(SrcState { nodes: tree_v(*t), cur_group, gid } == src_rec(
                s0,
                parent_id,
                filename@,
                es.take(j + 1),
            ));
        }
        j = j + 1;
    }
    proof {
        assert(es.take(es.len() as int) =~= es);
    }
}

/// The label of one leaf of a source-order tree.
pub fn src_leaf_label(e: &RecordElement) -> (r: String)
    ensures
        r@ == src_leaf_label_spec(*e),
{
    let mut r = crate::text::hex4(e.element);
    r.append(" ");
    r.append(e.name.as_str());
    r.append(" (");
    r.append(e.vr.as_str());
    r.append(", ");
    r.append(crate::text::len_display(e.length).as_str());
    r.append("): ");
    r.append(e.value.as_str());
    proof {
        assert(r@ =~= src_leaf_label_spec(*e));
    }
    r
}

/// Open the root and every direct child of the root.
#[verifier::loop_isolation(false)]
fn open_root_and_children(t: &mut crate::tree_widget::TreeWidget)
    requires
        old(t).wf(),
        forall|x: crate::tree_widget::Id| old(t).open_nodes@.contains(x) ==> x == 0,
    ensures
        final(t).wf(),
        final(t).open_wf(),
        final(t).nodes == old(t).nodes,
        final(t).root_id == old(t).root_id,
        final(t).selected_id == old(t).selected_id,
        final(t).visible_start_id == old(t).visible_start_id,
        forall|x: crate::tree_widget::Id|
            final(t).open_nodes@.contains(x) <==> (old(t).open_nodes@.contains(x) || x == 0
                || crate::tree_widget::kids_of(old(t).nodes@, 0).contains(x)),
    {
        let ghost ns = old(t).nodes@;
        t.open_nodes.insert(0);
        let num = t.nodes[0].children.len();
        let mut k: usize = 0;
        while k < num
            invariant
                t.nodes == old(t).nodes,
                t.root_id == old(t).root_id,
                t.selected_id == old(t).selected_id,
                t.visible_start_id == old(t).visible_start_id,
                k <= num,
                num == crate::tree_widget::kids_of(ns, 0).len(),
                forall|x: crate::tree_widget::Id|
                    #[trigger] t.open_nodes@.contains(x) <==> (old(t).open_nodes@.contains(x) || x
                        == 0 || (exists|m: int|
                        0 <= m < k && #[trigger] crate::tree_widget::kids_of(ns, 0)[m] == x)),
            decreases num - k,
        {
            let ghost pre = t.open_nodes@;
            let child = t.nodes[0].children[k];
            t.open_nodes.insert(child);
            proof {
                assert(crate::tree_widget::kids_of(ns, 0)[k as int] == child);
                assert forall|x: crate::tree_widget::Id|
                    #[trigger] t.open_nodes@.contains(x) <==> (old(t).open_nodes@.contains(x) || x
                        == 0 || (exists|m: int|
                        0 <= m < k + 1 && #[trigger] crate::tree_widget::kids_of(ns, 0)[m]
                            == x)) by {
                    if t.open_nodes@.contains(x) {
                        if x == child {
                            assert(crate::tree_widget::kids_of(ns, 0)[k as int] == x);
                        } else {
                            assert(pre.contains(x));
                            if !old(t).open_nodes@.contains(x) && x != 0 {
                                let m = choose|m: int|
                                    0 <= m < k && #[trigger] crate::tree_widget::kids_of(ns, 0)[m]
                                        == x;
                                assert(crate::tree_widget::kids_of(ns, 0)[m] == x && m < k + 1);
                            }
                        }
                    } else {
                        if exists|m: int|
                            0 <= m < k + 1 && #[trigger] crate::tree_widget::kids_of(ns, 0)[m]
                                == x {
                            let m = choose|m: int|
                                0 <= m < k + 1 && #[trigger] crate::tree_widget::kids_of(ns, 0)[m]
                                    == x;
                            if m < k {
                                assert(pre.contains(x));
                            } else {
                                assert(x == child);
                            }
                            assert(false);
                        }
                    }
                }
            }
            k = k + 1;
        }
        proof {
            assert forall|x: crate::tree_widget::Id| #[trigger] t.open_nodes@.contains(x) implies x
                < t.nodes@.len() by {
                if !old(t).open_nodes@.contains(x) && x != 0 {
                    let m = choose|m: int|
                        0 <= m < num && #[trigger] crate::tree_widget::kids_of(ns, 0)[m] == x;
                }
            }
            crate::tree_widget::TreeWidget::lemma_same_tree_wf(*old(t), *t);
            assert forall|x: crate::tree_widget::Id|
                #[trigger] t.open_nodes@.contains(x) implies t.valid(x as int) && (
            t.nodes@[x as int].parent_id matches Some(p) ==> t.open_nodes@.contains(p)) by {
                if x != 0 {
                    let m = choose|m: int|
                        0 <= m < num && #[trigger] crate::tree_widget::kids_of(ns, 0)[m] == x;
                    assert(t.nodes@[x as int].parent_id == Some(0usize));
                }
            }
        }
    }

/// Folding more records after earlier ones continues from their result.
proof fn lemma_src_multi_app(nodes: Seq<NodeV>, a: Seq<Record>, b: Seq<Record>)
    ensures
        src_multi(nodes, a + b) == src_multi(src_multi(nodes, a), b),
    decreases b.len(),
{
    if b.len() == 0 {
        assert(a + b =~= a);
    } else {
        assert((a + b).drop_last() =~= a + b.drop_last());
        assert((a + b).last() == b.last());
        lemma_src_multi_app(nodes, a, b.drop_last());
    }
}

/// Folding records never removes nodes.
proof fn lemma_src_multi_len(nodes: Seq<NodeV>, records: Seq<Record>)
    ensures
        src_multi(nodes, records).len() >= nodes.len(),
    decreases records.len(),
{
    if records.len() > 0 {
        lemma_src_multi_len(nodes, records.drop_last());
        let prev = src_multi(nodes, records.drop_last());
        let rid = prev.len() as crate::tree_widget::Id;
        let withrec = prev.push(
            NodeV { text: records.last().name@, parent: Option::Some(0), source: Option::None },
        );
        lemma_src_rec_len(
            SrcState { nodes: withrec, cur_group: Option::None, gid: rid },
            rid,
            records.last().name@,
            records.last().elements@,
        );
    }
}

impl DicomData {
    /// Build the tree "by source order": one subtree per record (or the
    /// single record's groups directly under the root), each record keeping
    /// its own element ordering, with a group node per run of equal groups.
    /// Only the root starts open.
    #[verifier::loop_isolation(false)]
    #[verifier::rlimit(100)]
    pub fn tree_sorted_by_filename(&self) -> (t: crate::tree_widget::TreeWidget)
        requires
            self.wf(),
            src_tree(self.root_path@, self.records@).len() <= usize::MAX,
        ensures
            t.wf(),
            t.open_wf(),
            tree_v(t) == src_tree(self.root_path@, self.records@),
            t.root_id == 0,
            t.selected_id == 0,
            t.visible_start_id == 0,
            forall|x: crate::tree_widget::Id| t.open_nodes@.contains(x) <==> x == 0,
    {
        let ghost root_seq = seq![
            NodeV {
                text: self.root_path@,
                parent: Option::<crate::tree_widget::Id>::None,
                source: Option::None,
            },
        ];
        let mut t = crate::tree_widget::TreeWidget::new(self.root_path.clone());
        proof {
            assert(tree_v(t) =~= root_seq);
        }
        if self.records.len() == 1 {
            read_data_into_tree(&mut t, &self.records[0].name, &self.records[0], 0);
        } else {
            let ghost records = self.records@;
            let mut i: usize = 0;
            proof {
                assert(records.take(0) =~= Seq::<Record>::empty());
            }
            while i < self.records.len()
                invariant
                    i <= records.len(),
                    t.wf(),
                    t.root_id == 0,
                    t.selected_id == 0,
                    t.visible_start_id == 0,
                    t.open_nodes@ == Set::<crate::tree_widget::Id>::empty(),
                    tree_v(t) == src_multi(root_seq, records.take(i as int)),
                decreases records.len() - i,
            {
                let ghost prev = src_multi(root_seq, records.take(i as int));
                proof {
                    // unfolding the fold by one record, and bounding what is
                    // still to come
                    assert(records.take(i + 1).drop_last() =~= records.take(i as int));
                    assert(records.take(i + 1).last() == records[i as int]);
                    assert(records =~= records.take(i + 1) + records.skip(i + 1));
                    lemma_src_multi_app(root_seq, records.take(i + 1), records.skip(i + 1));
                    lemma_src_multi_len(src_multi(root_seq, records.take(i + 1)), records.skip(i + 1));
                    let rid0 = prev.len() as crate::tree_widget::Id;
                    let withrec = prev.push(
                        NodeV {
                            text: records[i as int].name@,
                            parent: Option::Some(0usize),
                            source: Option::None,
                        },
                    );
                    lemma_src_rec_len(
                        SrcState { nodes: withrec, cur_group: Option::None, gid: rid0 },
                        rid0,
                        records[i as int].name@,
                        records[i as int].elements@,
                    );
                    assert(src_multi(root_seq, records.take(i + 1)).len() <= usize::MAX);
                    assert(tree_v(t).len() == t.nodes@.len());
                }
                let ghost pre = t;
                let rid = t.add_child(self.records[i].name.as_str(), 0, None);
                proof {
                    lemma_tree_v_after_add(pre, t, 0, records[i as int].name@, Option::None);
                }
                read_data_into_tree(&mut t, &self.records[i].name, &self.records[i], rid);
                proof {
                    assert(tree_v(t) == src_multi(root_seq, records.take(i + 1)));
                }
                i = i + 1;
            }
            proof {
                assert(records.take(records.len() as int) =~= records);
            }
        }
        let ghost before = t;
        t.open(0);
        proof {
            assert(before.open_wf()) by {
                assert(forall|x: crate::tree_widget::Id|
                    !(#[trigger] before.open_nodes@.contains(x)));
            }
            assert(crate::tree_widget::chain_of(before.nodes@, 0) =~= seq![0usize]);
            assert forall|x: crate::tree_widget::Id| t.open_nodes@.contains(x) <==> x == 0 by {
                if crate::tree_widget::chain_of(before.nodes@, 0).contains(x) {
                    let i = choose|i: int|
                        0 <= i < crate::tree_widget::chain_of(before.nodes@, 0).len()
                            && crate::tree_widget::chain_of(before.nodes@, 0)[i] == x;
                    assert(x == 0);
                }
                if x == 0 {
                    assert(crate::tree_widget::chain_of(before.nodes@, 0)[0] == 0usize);
                    assert(crate::tree_widget::chain_of(before.nodes@, 0).contains(0usize));
                }
            }
        }
        t
    }
}

/// Last-match lookup of a group node id.
pub open spec fn assoc_g(s: Seq<(u16, crate::tree_widget::Id)>, g: u16) -> Option<
    crate::tree_widget::Id,
>
    decreases s.len(),
{
    if s.len() == 0 {
        Option::None
    } else if s.last().0 == g {
        Option::Some(s.last().1)
    } else {
        assoc_g(s.drop_last(), g)
    }
}

/// Last-match lookup of a key node id.
pub open spec fn assoc_k(s: Seq<(u16, u16, crate::tree_widget::Id)>, g: u16, el: u16) -> Option<
    crate::tree_widget::Id,
>
    decreases s.len(),
{
    if s.len() == 0 {
        Option::None
    } else if s.last().0 == g && s.last().1 == el {
        Option::Some(s.last().2)
    } else {
        assoc_k(s.drop_last(), g, el)
    }
}

/// The folding state of the merged builder: the nodes built so far, the
/// group node of every group seen, and the key node of every surviving key.
pub struct MState {
    pub nodes: Seq<NodeV>,
    pub groups: Seq<(u16, crate::tree_widget::Id)>,
    pub keys: Seq<(u16, u16, crate::tree_widget::Id)>,
}

/// One element of one record merged into the tree: its group node is reused
/// or created under the root; if the key shows more distinct values than the
/// threshold, its key node is reused or created under the group node and a
/// leaf for this record is appended under it; otherwise nothing more is
/// added.
pub open spec fn m_step(
    records: Seq<Record>,
    min_diff: int,
    s: MState,
    name: Seq<char>,
    e: RecordElement,
) -> MState {
    let g_found = assoc_g(s.groups, e.group);
    let s1 = if g_found is Some {
        s
    } else {
        MState {
            nodes: s.nodes.push(
                NodeV {
                    text: hex4_spec(e.group),
                    parent: Option::Some(0),
                    source: Option::None,
                },
            ),
            groups: s.groups.push((e.group, s.nodes.len() as crate::tree_widget::Id)),
            keys: s.keys,
        }
    };
    let gid = if g_found is Some {
        g_found->Some_0
    } else {
        s.nodes.len() as crate::tree_widget::Id
    };
    if key_count(records, e.group, e.element) > min_diff {
        let k_found = assoc_k(s1.keys, e.group, e.element);
        let s2 = if k_found is Some {
            s1
        } else {
            MState {
                nodes: s1.nodes.push(
                    NodeV {
                        text: key_label_spec(e, key_maxlen(records, e.group, e.element)),
                        parent: Option::Some(gid),
                        source: Option::None,
                    },
                ),
                groups: s1.groups,
                keys: s1.keys.push((e.group, e.element, s1.nodes.len() as crate::tree_widget::Id)),
            }
        };
        let kid = if k_found is Some {
            k_found->Some_0
        } else {
            s1.nodes.len() as crate::tree_widget::Id
        };
        MState {
            nodes: s2.nodes.push(
                NodeV {
                    text: merged_leaf_label_spec(e, name, key_maxlen(records, e.group, e.element)),
                    parent: Option::Some(kid),
                    source: Option::Some((e.group, e.element, name)),
                },
            ),
            groups: s2.groups,
            keys: s2.keys,
        }
    } else {
        s1
    }
}

/// A batch of named elements merged into the tree, in order.
pub open spec fn m_fold(
    records: Seq<Record>,
    min_diff: int,
    s: MState,
    fes: Seq<(Seq<char>, RecordElement)>,
) -> MState
    decreases fes.len(),
{
    if fes.len() == 0 {
        s
    } else {
        m_step(
            records,
            min_diff,
            m_fold(records, min_diff, s, fes.drop_last()),
            fes.last().0,
            fes.last().1,
        )
    }
}

/// Every element of the batch, tagged with the name of its record.
pub open spec fn flat(records: Seq<Record>) -> Seq<(Seq<char>, RecordElement)>
    decreases records.len(),
{
    if records.len() == 0 {
        Seq::empty()
    } else {
        flat(records.drop_last()) + records.last().elements@.map_values(
            |e: RecordElement| (records.last().name@, e),
        )
    }
}

/// The starting state of the merged builder: a root node and nothing else.
pub open spec fn m_init(root_label: Seq<char>) -> MState {
    MState {
        nodes: seq![
            NodeV {
                text: root_label,
                parent: Option::<crate::tree_widget::Id>::None,
                source: Option::None,
            },
        ],
        groups: Seq::empty(),
        keys: Seq::empty(),
    }
}

/// The nodes of the merged tree.
pub open spec fn merged_tree(root_label: Seq<char>, records: Seq<Record>, min_diff: int) -> Seq<
    NodeV,
> {
    m_fold(records, min_diff, m_init(root_label), flat(records)).nodes
}

/// Merging a concatenation merges the parts one after the other.
proof fn lemma_m_fold_app(
    records: Seq<Record>,
    min_diff: int,
    s: MState,
    a: Seq<(Seq<char>, RecordElement)>,
    b: Seq<(Seq<char>, RecordElement)>,
)
    ensures
        m_fold(records, min_diff, s, a + b) == m_fold(
            records,
            min_diff,
            m_fold(records, min_diff, s, a),
            b,
        ),
    decreases b.len(),
{
    if b.len() == 0 {
        assert(a + b =~= a);
    } else {
        assert((a + b).drop_last() =~= a + b.drop_last());
        assert((a + b).last() == b.last());
        lemma_m_fold_app(records, min_diff, s, a, b.drop_last());
    }
}

/// Merging never removes nodes.
proof fn lemma_m_fold_len(
    records: Seq<Record>,
    min_diff: int,
    s: MState,
    fes: Seq<(Seq<char>, RecordElement)>,
)
    ensures
        m_fold(records, min_diff, s, fes).nodes.len() >= s.nodes.len(),
    decreases fes.len(),
{
    if fes.len() > 0 {
        lemma_m_fold_len(records, min_diff, s, fes.drop_last());
    }
}

/// Growing the flattened prefix by one record keeps earlier entries.
proof fn lemma_flat_take(records: Seq<Record>, i: int)
    requires
        0 <= i < records.len(),
    ensures
        flat(records.take(i + 1)) == flat(records.take(i)) + records[i].elements@.map_values(
            |e: RecordElement| (records[i].name@, e),
        ),
{
    assert(records.take(i + 1).drop_last() =~= records.take(i));
    assert(records.take(i + 1).last() == records[i]);
}

/// Splitting a batch splits its element listing.
proof fn lemma_all_elems_app(a: Seq<Record>, b: Seq<Record>)
    ensures
        all_elems(a + b) == all_elems(a) + all_elems(b),
    decreases b.len(),
{
    if b.len() == 0 {
        assert(a + b =~= a);
        assert(all_elems(a) + all_elems(b) =~= all_elems(a));
    } else {
        assert((a + b).drop_last() =~= a + b.drop_last());
        assert((a + b).last() == b.last());
        lemma_all_elems_app(a, b.drop_last());
        assert(all_elems(a) + all_elems(b.drop_last()) + b.last().elements@ =~= all_elems(a) + (
        all_elems(b.drop_last()) + b.last().elements@));
    }
}

/// Every element of every record occurs in the batch's element listing.
proof fn lemma_elem_present(records: Seq<Record>, i: int, j: int)
    requires
        0 <= i < records.len(),
        0 <= j < records[i].elements@.len(),
    ensures
        key_present(
            all_elems(records),
            records[i].elements@[j].group,
            records[i].elements@[j].element,
        ),
{
    assert(records =~= records.take(i + 1) + records.skip(i + 1));
    lemma_all_elems_app(records.take(i + 1), records.skip(i + 1));
    lemma_all_elems_take(records, i);
    let w = all_elems(records.take(i)).len() + j;
    assert(all_elems(records)[w] == records[i].elements@[j]);
}

/// Find the group node for `g`, if one was made.
#[verifier::loop_isolation(false)]
fn lookup_group(v: &Vec<(u16, crate::tree_widget::Id)>, g: u16) -> (r: Option<
    crate::tree_widget::Id,
>)
    ensures
        r == assoc_g(v@, g),
        r matches Some(id) ==> exists|m: int| 0 <= m < v@.len() && v@[m] == (g, id),
{
    let mut i: usize = v.len();
    proof {
        assert(v@.take(v@.len() as int) =~= v@);
    }
    loop
        invariant
            i <= v@.len(),
            assoc_g(v@, g) == assoc_g(v@.take(i as int), g),
        decreases i,
    {
        if i == 0 {
            proof {
                assert(v@.take(0) =~= Seq::<(u16, crate::tree_widget::Id)>::empty());
            }
            return None;
        }
        i = i - 1;
        proof {
            assert(v@.take(i + 1).drop_last() =~= v@.take(i as int));
            assert(v@.take(i + 1).last() == v@[i as int]);
        }
        if v[i].0 == g {
            proof {
                assert(v@[i as int] == (g, v@[i as int].1));
            }
            return Some(v[i].1);
        }
    }
}

/// Find the key node for `(g, el)`, if one was made.
#[verifier::loop_isolation(false)]
fn lookup_key(v: &Vec<(u16, u16, crate::tree_widget::Id)>, g: u16, el: u16) -> (r: Option<
    crate::tree_widget::Id,
>)
    ensures
        r == assoc_k(v@, g, el),
        r matches Some(id) ==> exists|m: int| 0 <= m < v@.len() && v@[m] == (g, el, id),
{
    let mut i: usize = v.len();
    proof {
        assert(v@.take(v@.len() as int) =~= v@);
    }
    loop
        invariant
            i <= v@.len(),
            assoc_k(v@, g, el) == assoc_k(v@.take(i as int), g, el),
        decreases i,
    {
        if i == 0 {
            proof {
                assert(v@.take(0) =~= Seq::<(u16, u16, crate::tree_widget::Id)>::empty());
            }
            return None;
        }
        i = i - 1;
        proof {
            assert(v@.take(i + 1).drop_last() =~= v@.take(i as int));
            assert(v@.take(i + 1).last() == v@[i as int]);
        }
        if v[i].0 == g && v[i].1 == el {
            proof {
                assert(v@[i as int] == (g, el, v@[i as int].2));
            }
            return Some(v[i].2);
        }
    }
}

/// Find the statistics of `(g, el)`, if the key occurs at all.
#[verifier::loop_isolation(false)]
fn lookup_stats(v: &Vec<((u16, u16), TagStats)>, g: u16, el: u16) -> (r: Option<TagStats>)
    ensures
        r == stats_lookup(v@, g, el),
{
    let mut i: usize = v.len();
    proof {
        assert(v@.take(v@.len() as int) =~= v@);
    }
    loop
        invariant
            i <= v@.len(),
            stats_lookup(v@, g, el) == stats_lookup(v@.take(i as int), g, el),
        decreases i,
    {
        if i == 0 {
            proof {
                assert(v@.take(0) =~= Seq::<((u16, u16), TagStats)>::empty());
            }
            return None;
        }
        i = i - 1;
        proof {
            assert(v@.take(i + 1).drop_last() =~= v@.take(i as int));
            assert(v@.take(i + 1).last() == v@[i as int]);
        }
        if v[i].0.0 == g && v[i].0.1 == el {
            return Some(v[i].1);
        }
    }
}

/// The label of a key node in a merged tree.
pub fn key_label(e: &RecordElement, max_length: Option<u32>) -> (r: String)
    ensures
        r@ == key_label_spec(*e, max_length),
{
    let mut r = crate::text::hex4(e.element);
    r.append(" ");
    r.append(e.name.as_str());
    r.append(" (");
    r.append(e.vr.as_str());
    match max_length {
        Some(_) => {},
        None => {
            r.append(", ");
            r.append(crate::text::len_display(e.length).as_str());
        },
    }
    r.append(")");
    proof {
        assert(r@ =~= key_label_spec(*e, max_length));
    }
    r
}

/// The label of one leaf of a merged tree.
pub fn merged_leaf_label(e: &RecordElement, fname: &String, max_length: Option<u32>) -> (r: String)
    ensures
        r@ == merged_leaf_label_spec(*e, fname@, max_length),
{
    let el_len: u32 = if e.length == UNDEFINED_LENGTH {
        PLACEHOLDER_WIDTH
    } else {
        e.length
    };
    let mut tail = String::from_str("[");
    tail.append(crate::text::u32_dec(el_len).as_str());
    tail.append("] - ");
    tail.append(fname.as_str());
    if e.group == PIXEL_DATA_GROUP && e.element == PIXEL_DATA_ELEMENT {
        proof {
            assert(tail@ =~= merged_leaf_label_spec(*e, fname@, max_length));
        }
        tail
    } else {
        let width: u32 = match max_length {
            Some(m) => m,
            None => el_len,
        };
        let mut r = crate::text::pad_to(e.value.as_str(), width as usize);
        r.append(tail.as_str());
        proof {
            assert(r@ =~= merged_leaf_label_spec(*e, fname@, max_length));
        }
        r
    }
}

impl DicomData {
    /// Build the tree "by key, merged": one group node per distinct group
    /// under the root, one key node per distinct key whose distinct-value
    /// count exceeds `min_diff`, and under it one leaf per record holding
    /// the key, values padded to a common width where lengths vary. Falls
    /// back to source order for a batch of fewer than two records. The root
    /// and every group node start open.
    #[verifier::loop_isolation(false)]
    #[verifier::rlimit(100)]
    pub fn tree_sorted_by_tag(&self, min_diff: usize) -> (t: crate::tree_widget::TreeWidget)
        requires
            self.wf(),
            self.records@.len() <= 1 ==> src_tree(self.root_path@, self.records@).len()
                <= usize::MAX,
            self.records@.len() > 1 ==> merged_tree(
                self.root_path@,
                self.records@,
                min_diff as int,
            ).len() <= usize::MAX,
        ensures
            t.wf(),
            t.open_wf(),
            t.root_id == 0,
            t.selected_id == 0,
            t.visible_start_id == 0,
            tree_v(t) == (if self.records@.len() <= 1 {
                src_tree(self.root_path@, self.records@)
            } else {
                merged_tree(self.root_path@, self.records@, min_diff as int)
            }),
            forall|x: crate::tree_widget::Id|
                t.open_nodes@.contains(x) <==> (x == 0 || crate::tree_widget::kids_of(
                    t.nodes@,
                    0,
                ).contains(x)),
    {
        if self.records.len() <= 1 {
            let mut t = self.tree_sorted_by_filename();
            open_root_and_children(&mut t);
            return t;
        }
        let ghost records = self.records@;
        let ghost md = min_diff as int;
        let ghost init = m_init(self.root_path@);
        let mut t = crate::tree_widget::TreeWidget::new(self.root_path.clone());
        let mut groups_vec: Vec<(u16, crate::tree_widget::Id)> = Vec::new();
        let mut keys_vec: Vec<(u16, u16, crate::tree_widget::Id)> = Vec::new();
        let ghost mut fdone: Seq<(Seq<char>, RecordElement)> = Seq::empty();
        proof {
            assert(tree_v(t) =~= init.nodes);
            assert(records.take(0) =~= Seq::<Record>::empty());
        }
        let mut i: usize = 0;
        while i < self.records.len()
            invariant
                i <= records.len(),
                t.wf(),
                t.root_id == 0,
                t.selected_id == 0,
                t.visible_start_id == 0,
                t.open_nodes@ == Set::<crate::tree_widget::Id>::empty(),
                fdone == flat(records.take(i as int)),
                (MState { nodes: tree_v(t), groups: groups_vec@, keys: keys_vec@ }) == m_fold(
                    records,
                    md,
                    init,
                    fdone,
                ),
                forall|m: int|
                    0 <= m < groups_vec@.len() ==> (#[trigger] groups_vec@[m]).1 < t.n(),
                forall|m: int| 0 <= m < keys_vec@.len() ==> (#[trigger] keys_vec@[m]).2 < t.n(),
            decreases records.len() - i,
        {
            let record = &self.records[i];
            let mut j: usize = 0;
            while j < record.elements.len()
                invariant
                    0 <= i < records.len(),
                    j <= record.elements@.len(),
                    record == &self.records@[i as int],
                    t.wf(),
                    t.root_id == 0,
                    t.selected_id == 0,
                    t.visible_start_id == 0,
                    t.open_nodes@ == Set::<crate::tree_widget::Id>::empty(),
                    fdone == flat(records.take(i as int)) + record.elements@.take(
                        j as int,
                    ).map_values(|e: RecordElement| (records[i as int].name@, e)),
                    (MState { nodes: tree_v(t), groups: groups_vec@, keys: keys_vec@ }) == m_fold(
                        records,
                        md,
                        init,
                        fdone,
                    ),
                    forall|m: int|
                        0 <= m < groups_vec@.len() ==> (#[trigger] groups_vec@[m]).1 < t.n(),
                    forall|m: int| 0 <= m < keys_vec@.len() ==> (#[trigger] keys_vec@[m]).2 < t.n(),
                decreases record.elements@.len() - j,
            {
                let e = &record.elements[j];
                let ghost fdone0 = fdone;
                let ghost mid = m_fold(records, md, init, fdone0);
                proof {
                    // one more named element enters the fold
                    assert(record.elements@.take(j + 1).map_values(
                        |e2: RecordElement| (records[i as int].name@, e2),
                    ) =~= record.elements@.take(j as int).map_values(
                        |e2: RecordElement| (records[i as int].name@, e2),
                    ).push((records[i as int].name@, record.elements@[j as int])));
                    fdone = fdone0.push((records[i as int].name@, *e));
                    assert(fdone.drop_last() =~= fdone0);
                    // what remains keeps the total below the bound
                    lemma_flat_take(records, i as int);
                    assert(flat(records.take(i + 1)) =~= fdone + record.elements@.skip(
                        j + 1,
                    ).map_values(|e2: RecordElement| (records[i as int].name@, e2))) by {
                        assert(record.elements@ =~= record.elements@.take(j as int).push(
                            record.elements@[j as int],
                        ) + record.elements@.skip(j + 1));
                        assert(record.elements@.map_values(
                            |e2: RecordElement| (records[i as int].name@, e2),
                        ) =~= fdone.skip(flat(records.take(i as int)).len() as int)
                            + record.elements@.skip(j + 1).map_values(
                            |e2: RecordElement| (records[i as int].name@, e2),
                        ));
                    }
                    assert(records =~= records.take(i + 1) + records.skip(i + 1));
                    lemma_flat_app(records.take(i + 1), records.skip(i + 1));
                    lemma_m_fold_app(
                        records,
                        md,
                        init,
                        flat(records.take(i + 1)),
                        flat(records.skip(i + 1)),
                    );
                    lemma_m_fold_len(
                        records,
                        md,
                        m_fold(records, md, init, flat(records.take(i + 1))),
                        flat(records.skip(i + 1)),
                    );
                    lemma_m_fold_app(records, md, init, fdone, record.elements@.skip(
                        j + 1,
                    ).map_values(|e2: RecordElement| (records[i as int].name@, e2)));
                    lemma_m_fold_len(
                        records,
                        md,
                        m_fold(records, md, init, fdone),
                        record.elements@.skip(j + 1).map_values(
                            |e2: RecordElement| (records[i as int].name@, e2),
                        ),
                    );
                    assert(m_fold(records, md, init, fdone).nodes.len() <= usize::MAX);
                    assert(tree_v(t).len() == t.nodes@.len());
                    // this element's key occurs in the batch, so it has stats
                    lemma_elem_present(records, i as int, j as int);
                }
                let ts = match lookup_stats(&self.stats, e.group, e.element) {
                    Some(ts) => ts,
                    None => {
                        // unreachable: the key occurs, so the statistics hold it
                        proof {
                            assert(false);
                        }
                        TagStats { num_values: 0, max_length: None }
                    },
                };
                proof {
                    assert(ts.num_values == key_count(records, e.group, e.element));
                    assert(ts.max_length == key_maxlen(records, e.group, e.element));
                    assert(m_step(records, md, mid, records[i as int].name@, *e) == m_fold(
                        records,
                        md,
                        init,
                        fdone,
                    ));
                }
                merge_element(
                    &mut t,
                    &mut groups_vec,
                    &mut keys_vec,
                    e,
                    &record.name,
                    ts,
                    min_diff,
                    Ghost(records),
                );
                proof {
                    assert((MState { nodes: tree_v(t), groups: groups_vec@, keys: keys_vec@ })
                        == m_fold(records, md, init, fdone));
                }
                j = j + 1;
            }
            proof {
                lemma_flat_take(records, i as int);
                assert(record.elements@.take(record.elements@.len() as int)
                    =~= record.elements@);
            }
            i = i + 1;
        }
        proof {
            assert(records.take(records.len() as int) =~= records);
        }
        open_root_and_children(&mut t);
        t
    }
}

/// Splitting a batch splits its flattened element listing.
proof fn lemma_flat_app(a: Seq<Record>, b: Seq<Record>)
    ensures
        flat(a + b) == flat(a) + flat(b),
    decreases b.len(),
{
    if b.len() == 0 {
        assert(a + b =~= a);
        assert(flat(a) + flat(b) =~= flat(a));
    } else {
        assert((a + b).drop_last() =~= a + b.drop_last());
        assert((a + b).last() == b.last());
        lemma_flat_app(a, b.drop_last());
        assert(flat(a) + flat(b.drop_last()) + b.last().elements@.map_values(
            |e: RecordElement| (b.last().name@, e),
        ) =~= flat(a) + (flat(b.drop_last()) + b.last().elements@.map_values(
            |e: RecordElement| (b.last().name@, e),
        )));
    }
}

/// Merge one named element into the tree under construction: reuse or create
/// its group node, and when the key passes the filter, reuse or create its
/// key node and append the record's leaf.
#[verifier::loop_isolation(false)]
#[verifier::rlimit(100)]
fn merge_element(
    t: &mut crate::tree_widget::TreeWidget,
    groups_vec: &mut Vec<(u16, crate::tree_widget::Id)>,
    keys_vec: &mut Vec<(u16, u16, crate::tree_widget::Id)>,
    e: &RecordElement,
    rec_name: &String,
    ts: TagStats,
    min_diff: usize,
    Ghost(records): Ghost<Seq<Record>>,
)
    requires
        old(t).wf(),
        old(t).root_id == 0,
        ts.num_values == key_count(records, e.group, e.element),
        ts.max_length == key_maxlen(records, e.group, e.element),
        m_step(
            records,
            min_diff as int,
            MState {
                nodes: tree_v(*old(t)),
                groups: old(groups_vec)@,
                keys: old(keys_vec)@,
            },
            rec_name@,
            *e,
        ).nodes.len() <= usize::MAX,
        forall|m: int|
            0 <= m < old(groups_vec)@.len() ==> (#[trigger] old(groups_vec)@[m]).1 < old(t).n(),
        forall|m: int|
            0 <= m < old(keys_vec)@.len() ==> (#[trigger] old(keys_vec)@[m]).2 < old(t).n(),
    ensures
        final(t).wf(),
        final(t).root_id == old(t).root_id,
        final(t).selected_id == old(t).selected_id,
        final(t).visible_start_id == old(t).visible_start_id,
        final(t).open_nodes@ == old(t).open_nodes@,
        (MState { nodes: tree_v(*final(t)), groups: final(groups_vec)@, keys: final(keys_vec)@ })
            == m_step(
            records,
            min_diff as int,
            MState {
                nodes: tree_v(*old(t)),
                groups: old(groups_vec)@,
                keys: old(keys_vec)@,
            },
            rec_name@,
            *e,
        ),
        forall|m: int|
            0 <= m < final(groups_vec)@.len() ==> (#[trigger] final(groups_vec)@[m]).1
                < final(t).n(),
        forall|m: int|
            0 <= m < final(keys_vec)@.len() ==> (#[trigger] final(keys_vec)@[m]).2 < final(t).n(),
{
    proof {
        assert(tree_v(*t).len() == t.nodes@.len());
    }
    let gid = match lookup_group(&groups_vec, e.group) {
        Some(g) => g,
        None => {
            let ghost pre = *t;
            let label = crate::text::hex4(e.group);
            let id = t.add_child(label.as_str(), 0, None);
            groups_vec.push((e.group, id));
            proof {
                lemma_tree_v_after_add(pre, *t, 0, hex4_spec(e.group), Option::None);
            }
            id
        },
    };
    proof {
        assert(t.valid(gid as int));
        assert(tree_v(*t).len() == t.nodes@.len());
    }
    if ts.num_values > min_diff {
        let kid = match lookup_key(&keys_vec, e.group, e.element) {
            Some(k) => k,
            None => {
                let ghost pre = *t;
                let label = key_label(e, ts.max_length);
                let id = t.add_child(label.as_str(), gid, None);
                keys_vec.push((e.group, e.element, id));
                proof {
                    lemma_tree_v_after_add(
                        pre,
                        *t,
                        gid,
                        key_label_spec(*e, key_maxlen(records, e.group, e.element)),
                        Option::None,
                    );
                }
                id
            },
        };
        proof {
            assert(t.valid(kid as int));
            assert(tree_v(*t).len() == t.nodes@.len());
        }
        let ghost pre2 = *t;
        let label = merged_leaf_label(e, rec_name, ts.max_length);
        let src = crate::tree_widget::TagSource {
            group: e.group,
            element: e.element,
            filename: rec_name.clone(),
        };
        t.add_child(label.as_str(), kid, Some(src));
        proof {
            lemma_tree_v_after_add(
                pre2,
                *t,
                kid,
                merged_leaf_label_spec(*e, rec_name@, key_maxlen(records, e.group, e.element)),
                Option::Some((e.group, e.element, rec_name@)),
            );
        }
    }
}

/// Whether some named element of the batch carries key `(g, el)`.
pub open spec fn fes_has_key(fes: Seq<(Seq<char>, RecordElement)>, g: u16, el: u16) -> bool {
    exists|i: int| 0 <= i < fes.len() && fes[i].1.group == g && fes[i].1.element == el
}

/// Whether some node of a listing is a leaf bearing key `(g, el)`.
pub open spec fn has_leaf(nodes: Seq<NodeV>, g: u16, el: u16) -> bool {
    exists|w: int|
        0 <= w < nodes.len() && ((#[trigger] nodes[w]).source matches Some(sv) && sv.0 == g && sv.1
            == el)
}

/// Merging adds a leaf for a key exactly when the key occurs in the merged
/// elements and passes the distinct-value filter.
proof fn lemma_m_fold_filter(
    records: Seq<Record>,
    md: int,
    s: MState,
    fes: Seq<(Seq<char>, RecordElement)>,
    g: u16,
    el: u16,
)
    ensures
        has_leaf(m_fold(records, md, s, fes).nodes, g, el) <==> (has_leaf(s.nodes, g, el) || (
        fes_has_key(fes, g, el) && key_count(records, g, el) > md)),
    decreases fes.len(),
{
    if fes.len() == 0 {
    } else {
        lemma_m_fold_filter(records, md, s, fes.drop_last(), g, el);
        let prev = m_fold(records, md, s, fes.drop_last());
        let name = fes.last().0;
        let e = fes.last().1;
        let stepped = m_step(records, md, prev, name, e);
        // each pushed node keeps earlier nodes in place; only the leaf
        // carries a source
        assert(has_leaf(stepped.nodes, g, el) <==> (has_leaf(prev.nodes, g, el) || (e.group == g
            && e.element == el && key_count(records, g, el) > md))) by {
            if has_leaf(prev.nodes, g, el) {
                let w = choose|w: int|
                    0 <= w < prev.nodes.len() && ((#[trigger] prev.nodes[w]).source matches Some(
                        sv,
                    ) && sv.0 == g && sv.1 == el);
                assert(stepped.nodes[w] == prev.nodes[w]);
            }
            if e.group == g && e.element == el && key_count(records, g, el) > md {
                assert(stepped.nodes.last().source == Option::Some((g, el, name)));
                assert(stepped.nodes[stepped.nodes.len() - 1].source matches Some(sv) && sv.0 == g
                    && sv.1 == el);
            }
            if has_leaf(stepped.nodes, g, el) && !has_leaf(prev.nodes, g, el) {
                let w = choose|w: int|
                    0 <= w < stepped.nodes.len() && ((#[trigger] stepped.nodes[w]).source matches Some(
                        sv,
                    ) && sv.0 == g && sv.1 == el);
                assert(w >= prev.nodes.len());
                // the only appended node with a source is the leaf of `e`
                assert(e.group == g && e.element == el && key_count(
                    records,
                    e.group,
                    e.element,
                ) > md);
            }
        }
        assert(fes_has_key(fes, g, el) <==> (fes_has_key(fes.drop_last(), g, el) || (e.group == g
            && e.element == el))) by {
            if fes_has_key(fes.drop_last(), g, el) {
                let i = choose|i: int|
                    0 <= i < fes.drop_last().len() && fes.drop_last()[i].1.group == g
                        && fes.drop_last()[i].1.element == el;
                assert(fes[i].1.group == g && fes[i].1.element == el);
            }
            if fes_has_key(fes, g, el) && !(e.group == g && e.element == el) {
                let i = choose|i: int|
                    0 <= i < fes.len() && fes[i].1.group == g && fes[i].1.element == el;
                assert(fes.drop_last()[i].1.group == g && fes.drop_last()[i].1.element == el);
            }
            if e.group == g && e.element == el {
                assert(fes[fes.len() - 1].1.group == g && fes[fes.len() - 1].1.element == el);
            }
        }
    }
}

/// The flattened batch carries exactly the batch's elements, in order.
proof fn lemma_flat_elems(records: Seq<Record>)
    ensures
        flat(records).len() == all_elems(records).len(),
        forall|i: int|
            0 <= i < flat(records).len() ==> (#[trigger] flat(records)[i]).1 == all_elems(
                records,
            )[i],
    decreases records.len(),
{
    if records.len() > 0 {
        lemma_flat_elems(records.drop_last());
    }
}

/// Filter correctness of the merged builder: a key is present in the merged
/// tree — some leaf bears it — exactly when it occurs in some record of the
/// batch and shows more distinct values than the threshold. With a threshold
/// of zero every occurring key is present; with a threshold of one a key is
/// present exactly when its values differ between records.
pub proof fn law_merged_filter(
    root_label: Seq<char>,
    records: Seq<Record>,
    min_diff: int,
    g: u16,
    el: u16,
)
    ensures
        has_leaf(merged_tree(root_label, records, min_diff), g, el) <==> (key_present(
            all_elems(records),
            g,
            el,
        ) && key_count(records, g, el) > min_diff),
{
    lemma_m_fold_filter(records, min_diff, m_init(root_label), flat(records), g, el);
    lemma_flat_elems(records);
    assert(!has_leaf(m_init(root_label).nodes, g, el));
    assert(fes_has_key(flat(records), g, el) <==> key_present(all_elems(records), g, el)) by {
        if fes_has_key(flat(records), g, el) {
            let i = choose|i: int|
                0 <= i < flat(records).len() && flat(records)[i].1.group == g && flat(
                    records,
                )[i].1.element == el;
            assert(all_elems(records)[i].group == g && all_elems(records)[i].element == el);
        }
        if key_present(all_elems(records), g, el) {
            let i = choose|i: int|
                0 <= i < all_elems(records).len() && all_elems(records)[i].group == g && all_elems(
                    records,
                )[i].element == el;
            assert(flat(records)[i].1.group == g && flat(records)[i].1.element == el);
        }
    }
}

/// A record that holds a key passing the filter contributes its own leaf:
/// the merged nodes contain one whose source names exactly that key and that
/// record.
proof fn lemma_m_fold_record_leaf(
    records: Seq<Record>,
    md: int,
    s: MState,
    fes: Seq<(Seq<char>, RecordElement)>,
    name: Seq<char>,
    g: u16,
    el: u16,
)
    requires
        exists|i: int|
            0 <= i < fes.len() && (#[trigger] fes[i]).0 == name && fes[i].1.group == g
                && fes[i].1.element == el,
        key_count(records, g, el) > md,
    ensures
        exists|w: int|
            0 <= w < m_fold(records, md, s, fes).nodes.len() && (#[trigger] m_fold(
                records,
                md,
                s,
                fes,
            ).nodes[w]).source == Some((g, el, name)),
    decreases fes.len(),
{
    let prev = m_fold(records, md, s, fes.drop_last());
    let stepped = m_fold(records, md, s, fes);
    let e = fes.last().1;
    if fes.last().0 == name && e.group == g && e.element == el {
        assert(stepped.nodes.last().source == Some((g, el, name)));
        assert(stepped.nodes[stepped.nodes.len() - 1].source == Some((g, el, name)));
    } else {
        assert(exists|i: int|
            0 <= i < fes.drop_last().len() && (#[trigger] fes.drop_last()[i]).0 == name
                && fes.drop_last()[i].1.group == g && fes.drop_last()[i].1.element == el) by {
            let i = choose|i: int|
                0 <= i < fes.len() && (#[trigger] fes[i]).0 == name && fes[i].1.group == g
                    && fes[i].1.element == el;
            assert(fes.drop_last()[i] == fes[i]);
        }
        lemma_m_fold_record_leaf(records, md, s, fes.drop_last(), name, g, el);
        let w = choose|w: int|
            0 <= w < prev.nodes.len() && (#[trigger] prev.nodes[w]).source == Some((g, el, name));
        assert(stepped.nodes[w] == prev.nodes[w]);
    }
}

/// Per-record leaves of the merged tree: when a record (named `name`)
/// carries a key whose distinct-value count exceeds the threshold, the
/// merged tree holds a leaf bearing that key and that record's name — so a
/// surviving key shows one leaf per record that holds it.
pub proof fn law_merged_record_leaf(
    root_label: Seq<char>,
    records: Seq<Record>,
    min_diff: int,
    name: Seq<char>,
    g: u16,
    el: u16,
)
    requires
        exists|i: int|
            0 <= i < flat(records).len() && (#[trigger] flat(records)[i]).0 == name && flat(
                records,
            )[i].1.group == g && flat(records)[i].1.element == el,
        key_count(records, g, el) > min_diff,
    ensures
        exists|w: int|
            0 <= w < merged_tree(root_label, records, min_diff).len() && (#[trigger] merged_tree(
                root_label,
                records,
                min_diff,
            )[w]).source == Some((g, el, name)),
{
    lemma_m_fold_record_leaf(records, min_diff, m_init(root_label), flat(records), name, g, el);
    let ns2 = m_fold(records, min_diff, m_init(root_label), flat(records)).nodes;
    let w = choose|w: int|
        0 <= w < ns2.len() && (#[trigger] ns2[w]).source == Some((g, el, name));
    assert(merged_tree(root_label, records, min_diff)[w].source == Some((g, el, name)));
}

} // verus!
