use dicom_tagger::dicom::{
    num_distinct_values_and_max_length_by_tag, DicomData, Record, RecordElement, TagStats,
};
use dicom_tagger::tree_widget::TreeWidget;

fn elem(group: u16, element: u16, value: &str, length: u32) -> RecordElement {
    RecordElement {
        group,
        element,
        name: format!("Tag{:04x}{:04x}", group, element),
        vr: "SH".to_string(),
        value: value.to_string(),
        length,
    }
}

fn record(name: &str, elements: Vec<RecordElement>) -> Record {
    Record { name: name.to_string(), elements }
}

fn stats_for(stats: &[((u16, u16), TagStats)], g: u16, el: u16) -> Option<TagStats> {
    stats.iter().rev().find(|e| e.0 == (g, el)).map(|e| e.1)
}

#[test]
fn test_statistics_distinct_values_and_lengths() {
    let records = vec![
        record("r1", vec![elem(8, 1, "a", 2), elem(8, 2, "x", 4)]),
        record("r2", vec![elem(8, 1, "b", 2), elem(8, 2, "x", 6)]),
        record("r3", vec![elem(8, 1, "a", 2)]),
    ];
    let stats = num_distinct_values_and_max_length_by_tag(&records);
    let a = stats_for(&stats, 8, 1).unwrap();
    assert_eq!(a.num_values, 2);
    assert_eq!(a.max_length, None);
    let b = stats_for(&stats, 8, 2).unwrap();
    assert_eq!(b.num_values, 1);
    assert_eq!(b.max_length, Some(6));
    assert!(stats_for(&stats, 9, 9).is_none());
}

fn children_of<'a>(t: &'a TreeWidget, id: usize) -> &'a Vec<usize> {
    &t.nodes[id].children
}

#[test]
fn test_build_by_source_order_single_record() {
    // a single record with two groups: root -> 2 group nodes -> 1 leaf each
    let records = vec![record(
        "r1",
        vec![elem(0x08, 0x10, "x", 2), elem(0x10, 0x20, "y", 3)],
    )];
    let data = DicomData::new("root".to_string(), records);
    let t = data.tree_sorted_by_filename();

    let root_kids = children_of(&t, t.root_id);
    assert_eq!(root_kids.len(), 2);
    let g1 = root_kids[0];
    let g2 = root_kids[1];
    assert_eq!(t.nodes[g1].text, "0008");
    assert_eq!(t.nodes[g2].text, "0010");
    assert_eq!(children_of(&t, g1).len(), 1);
    assert_eq!(children_of(&t, g2).len(), 1);
    let l1 = children_of(&t, g1)[0];
    let l2 = children_of(&t, g2)[0];
    assert_eq!(t.nodes[l1].text, "0010 Tag00080010 (SH, 2): x");
    assert_eq!(t.nodes[l2].text, "0020 Tag00100020 (SH, 3): y");
    assert!(children_of(&t, l1).is_empty());
    assert!(children_of(&t, l2).is_empty());
    // only the root starts open
    assert!(t.is_open(&t.root_id));
    assert!(!t.is_open(&g1) && !t.is_open(&g2));
}

#[test]
fn test_build_by_source_order_multi_record() {
    let records = vec![
        record("r1", vec![elem(0x08, 0x10, "x", 2)]),
        record("r2", vec![elem(0x08, 0x10, "y", 2)]),
    ];
    let data = DicomData::new("root".to_string(), records);
    let t = data.tree_sorted_by_filename();

    let root_kids = children_of(&t, t.root_id);
    assert_eq!(root_kids.len(), 2);
    assert_eq!(t.nodes[root_kids[0]].text, "r1");
    assert_eq!(t.nodes[root_kids[1]].text, "r2");
    for &rid in root_kids {
        let groups = children_of(&t, rid);
        assert_eq!(groups.len(), 1);
        assert_eq!(t.nodes[groups[0]].text, "0008");
        assert_eq!(children_of(&t, groups[0]).len(), 1);
    }
}

#[test]
fn test_group_changes_make_new_group_nodes() {
    // the group node tracks runs: returning to an earlier group starts a
    // fresh node
    let records = vec![record(
        "r1",
        vec![
            elem(0x08, 0x10, "a", 1),
            elem(0x08, 0x11, "b", 1),
            elem(0x10, 0x20, "c", 1),
            elem(0x08, 0x12, "d", 1),
        ],
    )];
    let data = DicomData::new("root".to_string(), records);
    let t = data.tree_sorted_by_filename();
    let root_kids = children_of(&t, t.root_id);
    assert_eq!(root_kids.len(), 3);
    assert_eq!(t.nodes[root_kids[0]].text, "0008");
    assert_eq!(t.nodes[root_kids[1]].text, "0010");
    assert_eq!(t.nodes[root_kids[2]].text, "0008");
    assert_eq!(children_of(&t, root_kids[0]).len(), 2);
    assert_eq!(children_of(&t, root_kids[1]).len(), 1);
    assert_eq!(children_of(&t, root_kids[2]).len(), 1);
}

#[test]
fn test_merged_filter_threshold_one() {
    // three records, key A always "5", key B with three different values:
    // with a threshold of 1 only B gets a key node, with 3 leaves
    let a = (0x08u16, 0x01u16);
    let b = (0x08u16, 0x02u16);
    let records = vec![
        record("r1", vec![elem(a.0, a.1, "5", 1), elem(b.0, b.1, "1", 1)]),
        record("r2", vec![elem(a.0, a.1, "5", 1), elem(b.0, b.1, "2", 1)]),
        record("r3", vec![elem(a.0, a.1, "5", 1), elem(b.0, b.1, "3", 1)]),
    ];
    let data = DicomData::new("root".to_string(), records);
    let t = data.tree_sorted_by_tag(1);

    // one group node under the root
    let root_kids = children_of(&t, t.root_id);
    assert_eq!(root_kids.len(), 1);
    let group = root_kids[0];
    assert_eq!(t.nodes[group].text, "0008");
    // one key node under it, with exactly 3 leaves, one per record
    let key_nodes = children_of(&t, group);
    assert_eq!(key_nodes.len(), 1);
    let leaves = children_of(&t, key_nodes[0]);
    assert_eq!(leaves.len(), 3);
    for (k, &leaf) in leaves.iter().enumerate() {
        let src = t.nodes[leaf].source.as_ref().unwrap();
        assert_eq!((src.group, src.element), b);
        assert_eq!(src.filename, format!("r{}", k + 1));
    }
    // no leaf for key A anywhere
    for node in &t.nodes {
        if let Some(src) = &node.source {
            assert_ne!((src.group, src.element), a);
        }
    }
    // the root and the group nodes start open
    assert!(t.is_open(&t.root_id));
    assert!(t.is_open(&group));
    assert!(!t.is_open(&key_nodes[0]));
}

#[test]
fn test_merged_filter_threshold_zero_keeps_all_keys() {
    let a = (0x08u16, 0x01u16);
    let b = (0x10u16, 0x02u16);
    let records = vec![
        record("r1", vec![elem(a.0, a.1, "5", 1), elem(b.0, b.1, "1", 1)]),
        record("r2", vec![elem(a.0, a.1, "5", 1), elem(b.0, b.1, "2", 1)]),
    ];
    let data = DicomData::new("root".to_string(), records);
    let t = data.tree_sorted_by_tag(0);

    let mut seen_a = 0;
    let mut seen_b = 0;
    for node in &t.nodes {
        if let Some(src) = &node.source {
            if (src.group, src.element) == a {
                seen_a += 1;
            }
            if (src.group, src.element) == b {
                seen_b += 1;
            }
        }
    }
    assert_eq!(seen_a, 2);
    assert_eq!(seen_b, 2);
    // two groups under the root
    assert_eq!(children_of(&t, t.root_id).len(), 2);
}

#[test]
fn test_merged_leaf_padding_and_key_label() {
    // lengths differ, so values are padded to the longest length and the
    // key label shows no length of its own
    let records = vec![
        record("r1", vec![elem(0x08, 0x01, "ab", 2)]),
        record("r2", vec![elem(0x08, 0x01, "abcd", 4)]),
    ];
    let data = DicomData::new("root".to_string(), records);
    let t = data.tree_sorted_by_tag(0);
    let group = children_of(&t, t.root_id)[0];
    let key_node = children_of(&t, group)[0];
    assert_eq!(t.nodes[key_node].text, "0001 Tag00080001 (SH)");
    let leaves = children_of(&t, key_node);
    assert_eq!(t.nodes[leaves[0]].text, "ab  [2] - r1");
    assert_eq!(t.nodes[leaves[1]].text, "abcd[4] - r2");
}

#[test]
fn test_merged_leaf_same_length_shows_length_in_key() {
    let records = vec![
        record("r1", vec![elem(0x08, 0x01, "ab", 2)]),
        record("r2", vec![elem(0x08, 0x01, "cd", 2)]),
    ];
    let data = DicomData::new("root".to_string(), records);
    let t = data.tree_sorted_by_tag(0);
    let group = children_of(&t, t.root_id)[0];
    let key_node = children_of(&t, group)[0];
    assert_eq!(t.nodes[key_node].text, "0001 Tag00080001 (SH, 2)");
    let leaves = children_of(&t, key_node);
    assert_eq!(t.nodes[leaves[0]].text, "ab[2] - r1");
}

#[test]
fn test_merged_pixel_data_shows_only_length() {
    let mut e1 = elem(0x7fe0, 0x0010, "<binary data>", 100);
    let mut e2 = elem(0x7fe0, 0x0010, "<binary data>", 200);
    e1.vr = "OB".to_string();
    e2.vr = "OB".to_string();
    let records = vec![record("r1", vec![e1]), record("r2", vec![e2])];
    let data = DicomData::new("root".to_string(), records);
    let t = data.tree_sorted_by_tag(0);
    let group = children_of(&t, t.root_id)[0];
    let key_node = children_of(&t, group)[0];
    let leaves = children_of(&t, key_node);
    assert_eq!(t.nodes[leaves[0]].text, "[100] - r1");
    assert_eq!(t.nodes[leaves[1]].text, "[200] - r2");
}

#[test]
fn test_merged_single_record_falls_back_to_source_order() {
    let records = vec![record(
        "r1",
        vec![elem(0x08, 0x10, "x", 2), elem(0x10, 0x20, "y", 3)],
    )];
    let data = DicomData::new("root".to_string(), records);
    let t = data.tree_sorted_by_tag(1);
    // the source-order shape, with root and its children open
    let root_kids = children_of(&t, t.root_id);
    assert_eq!(root_kids.len(), 2);
    assert_eq!(t.nodes[root_kids[0]].text, "0008");
    assert!(t.is_open(&t.root_id));
    assert!(t.is_open(&root_kids[0]) && t.is_open(&root_kids[1]));
}

#[test]
fn test_tree_shape_parent_links() {
    // every node but the root appears exactly once among its parent's
    // children, whatever builder made the tree
    let records = vec![
        record("r1", vec![elem(0x08, 0x01, "a", 1), elem(0x09, 0x02, "b", 2)]),
        record("r2", vec![elem(0x08, 0x01, "c", 1)]),
    ];
    let data = DicomData::new("root".to_string(), records);
    for t in [data.tree_sorted_by_filename(), data.tree_sorted_by_tag(0)] {
        assert!(t.nodes[t.root_id].parent_id.is_none());
        for (id, node) in t.nodes.iter().enumerate() {
            if id != t.root_id {
                let p = node.parent_id.expect("non-root node must have a parent");
                let occurrences =
                    t.nodes[p].children.iter().filter(|&&c| c == id).count();
                assert_eq!(occurrences, 1);
            }
            for &c in &node.children {
                assert_eq!(t.nodes[c].parent_id, Some(id));
                assert!(c > id);
            }
        }
    }
}

#[test]
fn test_open_invariant_after_navigation() {
    // after open, expand and navigation calls, every ancestor of an open
    // node is open
    let records = vec![
        record("r1", vec![elem(0x08, 0x01, "a", 1), elem(0x09, 0x02, "b", 2)]),
        record("r2", vec![elem(0x08, 0x01, "c", 1), elem(0x09, 0x02, "d", 2)]),
    ];
    let data = DicomData::new("root".to_string(), records);
    let mut t = data.tree_sorted_by_tag(0);
    t.select_next(3);
    t.select_first_child();
    t.expand_recursive(t.selected_id);
    t.expand_siblings_of_selected();
    t.select_prev(2);
    for id in 0..t.nodes.len() {
        if t.is_open(&id) {
            let mut cur = id;
            while let Some(p) = t.nodes[cur].parent_id {
                assert!(t.is_open(&p));
                cur = p;
            }
        }
    }
}

#[test]
fn test_preorder_walk_matches_visible_nodes() {
    // walking with next_visible from the root reproduces visible_nodes, and
    // prev_visible walks it backwards
    let records = vec![
        record("r1", vec![elem(0x08, 0x01, "a", 1), elem(0x09, 0x02, "b", 2)]),
        record("r2", vec![elem(0x08, 0x01, "c", 1)]),
    ];
    let data = DicomData::new("root".to_string(), records);
    let mut t = data.tree_sorted_by_filename();
    t.expand_recursive(t.root_id);
    let visible = t.visible_nodes();
    let mut walked = vec![t.root_id];
    let mut cur = t.root_id;
    while let Some(next) = t.next_visible(cur) {
        walked.push(next);
        cur = next;
    }
    assert_eq!(walked, visible);
    let mut back = vec![cur];
    while let Some(prev) = t.prev_visible(cur) {
        back.push(prev);
        cur = prev;
    }
    back.reverse();
    assert_eq!(back, visible);
}

#[test]
fn test_all_open_visible_equals_full_preorder() {
    let records = vec![record(
        "r1",
        vec![elem(0x08, 0x01, "a", 1), elem(0x09, 0x02, "b", 2)],
    )];
    let data = DicomData::new("root".to_string(), records);
    let mut t = data.tree_sorted_by_filename();
    t.expand_recursive(t.root_id);
    // with everything open, every node is visible, in pre-order
    let visible = t.visible_nodes();
    assert_eq!(visible.len(), t.nodes.len());
}

#[test]
fn test_empty_batch_builds_root_only_tree() {
    let data = DicomData::new("root".to_string(), vec![]);
    let t1 = data.tree_sorted_by_filename();
    assert_eq!(t1.nodes.len(), 1);
    assert!(t1.is_open(&t1.root_id));
    let t2 = data.tree_sorted_by_tag(0);
    assert_eq!(t2.nodes.len(), 1);
    assert!(t2.is_open(&t2.root_id));
    assert_eq!(t2.visible_nodes(), vec![t2.root_id]);
}
