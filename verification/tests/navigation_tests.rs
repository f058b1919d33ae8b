use dicom_tagger::tree_widget::TreeWidget;

fn flat_tree(n_children: usize) -> TreeWidget {
    let mut t = TreeWidget::new("root".to_string());
    for k in 0..n_children {
        let label = format!("child{}", k + 1);
        t.add_child(&label, t.root_id, None);
    }
    t.open(t.root_id);
    t
}

#[test]
fn test_round_trip_next_then_prev() {
    // from any non-root, non-last visible node, one step down and one step
    // up return to the start
    let mut t = TreeWidget::new("root".to_string());
    let c1 = t.add_child("child1", t.root_id, None);
    let c2 = t.add_child("child2", c1, None);
    t.add_child("child3", c1, None);
    t.add_child("child4", t.root_id, None);
    t.open(t.root_id);
    t.open(c1);

    let visible = t.visible_nodes();
    for k in 1..visible.len() - 1 {
        t.selected_id = visible[k];
        t.select_next(1);
        t.select_prev(1);
        assert_eq!(t.selected_id, visible[k]);
    }
    assert_eq!(visible[2], c2);
}

#[test]
fn test_boundary_next_sticks_at_last() {
    let mut t = flat_tree(3);
    let visible = t.visible_nodes();
    let last = *visible.last().unwrap();
    t.selected_id = last;
    for n in [0usize, 1, 5, 100] {
        t.select_next(n);
        assert_eq!(t.selected_id, last);
    }
}

#[test]
fn test_boundary_prev_sticks_at_root() {
    let mut t = flat_tree(3);
    for n in [0usize, 1, 5, 100] {
        t.select_prev(n);
        assert_eq!(t.selected_id, t.root_id);
    }
}

#[test]
fn test_select_first_and_last() {
    let mut t = flat_tree(4);
    t.select_next(2);
    assert_ne!(t.selected_id, t.root_id);
    t.select_first();
    assert_eq!(t.selected_id, t.root_id);
    t.select_last();
    let visible = t.visible_nodes();
    assert_eq!(t.selected_id, *visible.last().unwrap());
}

#[test]
fn test_select_parent_and_first_child() {
    let mut t = TreeWidget::new("root".to_string());
    let c1 = t.add_child("child1", t.root_id, None);
    let c2 = t.add_child("child2", c1, None);
    t.open(t.root_id);

    // descending into a closed node opens it
    t.selected_id = c1;
    assert!(!t.is_open(&c1));
    t.select_first_child();
    assert_eq!(t.selected_id, c2);
    assert!(t.is_open(&c1));

    t.select_parent();
    assert_eq!(t.selected_id, c1);
    // moving up never closes
    assert!(t.is_open(&c1));
    t.select_parent();
    assert_eq!(t.selected_id, t.root_id);
    t.select_parent();
    assert_eq!(t.selected_id, t.root_id);
}

#[test]
fn test_select_sibling_bounds() {
    let mut t = flat_tree(3);
    let visible = t.visible_nodes();
    t.selected_id = visible[1];
    t.select_first_sibling();
    assert_eq!(t.selected_id, visible[1]);
    t.select_last_sibling();
    assert_eq!(t.selected_id, visible[3]);
    t.select_next_sibling();
    assert_eq!(t.selected_id, visible[3]);
    t.select_prev_sibling();
    assert_eq!(t.selected_id, visible[2]);
}

#[test]
fn test_expand_and_collapse_recursive() {
    let mut t = TreeWidget::new("root".to_string());
    let c1 = t.add_child("child1", t.root_id, None);
    let c2 = t.add_child("child2", c1, None);
    t.add_child("child3", c2, None);
    t.add_child("child4", t.root_id, None);

    t.expand_recursive(t.root_id);
    assert_eq!(t.visible_nodes().len(), 5);
    assert!(t.is_open(&t.root_id) && t.is_open(&c1) && t.is_open(&c2));

    t.collapse_recursive(c1);
    assert!(!t.is_open(&c1) && !t.is_open(&c2));
    assert!(t.is_open(&t.root_id));
    assert_eq!(t.visible_nodes().len(), 3);
}

#[test]
fn test_expand_recursive_opens_ancestors() {
    // expanding a node below a closed parent reveals the node itself too
    let mut t = TreeWidget::new("root".to_string());
    let c1 = t.add_child("child1", t.root_id, None);
    let c2 = t.add_child("child2", c1, None);
    t.add_child("child3", c2, None);

    t.expand_recursive(c2);
    assert!(t.is_open(&t.root_id));
    assert!(t.is_open(&c1));
    assert!(t.is_open(&c2));
}

#[test]
fn test_expand_and_collapse_siblings() {
    let mut t = TreeWidget::new("root".to_string());
    let c1 = t.add_child("child1", t.root_id, None);
    let c2 = t.add_child("child2", t.root_id, None);
    t.add_child("child3", c1, None);
    t.add_child("child4", c2, None);
    t.open(t.root_id);

    t.selected_id = c1;
    t.expand_siblings_of_selected();
    assert!(t.is_open(&c1) && t.is_open(&c2));

    t.collapse_siblings_of_selected();
    assert!(!t.is_open(&c1) && !t.is_open(&c2));
    assert!(t.is_open(&t.root_id));
}

#[test]
fn test_siblings_listing() {
    let mut t = flat_tree(3);
    let visible = t.visible_nodes();
    let sibs = t.siblings(visible[2]);
    assert_eq!(sibs, vec![visible[1], visible[2], visible[3]]);
    assert_eq!(t.siblings(t.root_id), vec![]);
}

#[test]
fn test_viewport_scroll_down() {
    // 10 visible nodes, page of 5, viewport at index 0: selecting index 7
    // moves the viewport start to index 3
    let mut t = flat_tree(9);
    let visible = t.visible_nodes();
    assert_eq!(visible.len(), 10);
    assert_eq!(t.visible_start_id, visible[0]);
    t.select_next(7);
    assert_eq!(t.selected_id, visible[7]);
    t.adjust_viewport(5);
    assert_eq!(t.visible_start_id, visible[3]);
}

#[test]
fn test_viewport_scroll_up_and_window() {
    let mut t = flat_tree(9);
    let visible = t.visible_nodes();
    t.select_next(7);
    t.adjust_viewport(5);
    // scrolling back above the viewport start snaps the start to the selection
    t.select_prev(6);
    assert_eq!(t.selected_id, visible[1]);
    let rows = t.visible_window(5);
    assert_eq!(t.visible_start_id, visible[1]);
    assert_eq!(rows.len(), 5);
    for (k, row) in rows.iter().enumerate() {
        assert_eq!(row.id, visible[1 + k]);
        assert_eq!(row.level, if row.id == t.root_id { 0 } else { 1 });
        assert_eq!(row.selected, row.id == t.selected_id);
    }
    assert_eq!(rows[0].text, "child1");
}

#[test]
fn test_viewport_unchanged_when_selection_in_page() {
    let mut t = flat_tree(9);
    let visible = t.visible_nodes();
    t.select_next(3);
    t.adjust_viewport(5);
    assert_eq!(t.visible_start_id, visible[0]);
}

#[test]
fn test_selection_visible_after_collapse() {
    let mut t = TreeWidget::new("root".to_string());
    let c1 = t.add_child("child1", t.root_id, None);
    let c2 = t.add_child("child2", c1, None);
    t.open(t.root_id);
    t.open(c1);
    t.selected_id = c2;
    assert!(t.selection_visible());
    t.close(c1);
    assert!(!t.selection_visible());
    assert!(t.viewport_visible());
}
