use dicom_tagger::tree_widget::TreeWidget;

#[test]
fn test_new_tree_widget() {
    let tree_widget = TreeWidget::new("root".to_string());
    let root_node = &tree_widget.nodes[tree_widget.root_id];
    assert_eq!(root_node.text, "root".to_string());
    assert!(root_node.parent_id.is_none());
    assert_eq!(tree_widget.selected_id, tree_widget.root_id);
    assert!(tree_widget.open_nodes.is_empty());
}

#[test]
fn test_add_child() {
    let mut tree_widget = TreeWidget::new("root".to_string());
    let child_id = tree_widget.add_child("child", tree_widget.root_id, None);
    let root_node = &tree_widget.nodes[tree_widget.root_id];
    let child_node = &tree_widget.nodes[child_id];
    assert_eq!(root_node.children.len(), 1);
    assert_eq!(root_node.children[0], child_id);
    assert_eq!(child_node.text, "child");
    assert_eq!(child_node.parent_id, Some(tree_widget.root_id));
}

#[test]
fn test_toggle_root() {
    let mut tree_widget = TreeWidget::new("root".to_string());
    tree_widget.add_child("child", tree_widget.root_id, None);
    assert!(!tree_widget.is_open(&tree_widget.root_id));

    tree_widget.toggle(tree_widget.root_id);
    assert!(tree_widget.is_open(&tree_widget.root_id));
}

#[test]
fn test_toggle_child() {
    let mut tree_widget = TreeWidget::new("root".to_string());
    let child1_id = tree_widget.add_child("child1", tree_widget.root_id, None);
    tree_widget.add_child("child2", child1_id, None);
    tree_widget.add_child("child3", child1_id, None);
    tree_widget.add_child("child4", tree_widget.root_id, None);
    tree_widget.add_child("child5", tree_widget.root_id, None);
    assert!(!tree_widget.is_open(&child1_id));

    tree_widget.toggle(tree_widget.root_id);
    tree_widget.toggle(child1_id);
    assert!(tree_widget.is_open(&child1_id));
}

#[test]
fn test_next_on_closed_root() {
    let mut tree_widget = TreeWidget::new("root".to_string());
    tree_widget.add_child("child1", tree_widget.root_id, None);

    assert_eq!(tree_widget.selected_id, tree_widget.root_id);
    tree_widget.select_next(1);
    assert_eq!(tree_widget.selected_id, tree_widget.root_id);
}

#[test]
fn test_next_on_open_root() {
    let mut tree_widget = TreeWidget::new("root".to_string());
    let child_id = tree_widget.add_child("child", tree_widget.root_id, None);

    assert_eq!(tree_widget.selected_id, tree_widget.root_id);
    tree_widget.open(tree_widget.root_id);
    tree_widget.select_next(1);
    assert_eq!(tree_widget.selected_id, child_id);
}

#[test]
fn test_next_for_closed_children() {
    let mut tree_widget = TreeWidget::new("root".to_string());
    let child1_id = tree_widget.add_child("child1", tree_widget.root_id, None);
    tree_widget.add_child("child2", child1_id, None);
    let child3_id = tree_widget.add_child("child3", child1_id, None);
    tree_widget.add_child("child4", child3_id, None);
    let child5_id = tree_widget.add_child("child5", tree_widget.root_id, None);
    let child6_id = tree_widget.add_child("child6", tree_widget.root_id, None);
    tree_widget.open(tree_widget.root_id);

    tree_widget.select_next(1);
    assert_eq!(tree_widget.selected_id, child1_id);

    tree_widget.select_next(1);
    assert_eq!(tree_widget.selected_id, child5_id);

    tree_widget.select_next(1);
    assert_eq!(tree_widget.selected_id, child6_id);
}

#[test]
fn test_next_for_opented_children() {
    // root
    // ├─child1
    // │ ├─child2
    // │ ├─child3
    // │   ├─child4
    // ├─child5
    // ├─child6
    let mut tree_widget = TreeWidget::new("root".to_string());
    let child1_id = tree_widget.add_child("child1", tree_widget.root_id, None);
    let child2_id = tree_widget.add_child("child2", child1_id, None);
    let child3_id = tree_widget.add_child("child3", child1_id, None);
    let child4_id = tree_widget.add_child("child4", child3_id, None);
    let child5_id = tree_widget.add_child("child5", tree_widget.root_id, None);
    let child6_id = tree_widget.add_child("child6", tree_widget.root_id, None);
    tree_widget.open(tree_widget.root_id);
    tree_widget.open(child1_id);
    tree_widget.open(child3_id);

    tree_widget.select_next(1);
    assert_eq!(tree_widget.selected_id, child1_id);

    tree_widget.select_next(1);
    assert_eq!(tree_widget.selected_id, child2_id);

    tree_widget.select_next(1);
    assert_eq!(tree_widget.selected_id, child3_id);

    tree_widget.select_next(1);
    assert_eq!(tree_widget.selected_id, child4_id);

    tree_widget.select_next(1);
    assert_eq!(tree_widget.selected_id, child5_id);

    tree_widget.select_next(1);
    assert_eq!(tree_widget.selected_id, child6_id);
}

#[test]
fn test_prev_for_closed_children() {
    let mut tree_widget = TreeWidget::new("root".to_string());
    let child1_id = tree_widget.add_child("child1", tree_widget.root_id, None);
    tree_widget.add_child("child2", child1_id, None);
    let child3_id = tree_widget.add_child("child3", child1_id, None);
    tree_widget.add_child("child4", child3_id, None);
    let child5_id = tree_widget.add_child("child5", tree_widget.root_id, None);
    let child6_id = tree_widget.add_child("child6", tree_widget.root_id, None);
    tree_widget.selected_id = child6_id;
    tree_widget.open(tree_widget.root_id);
    assert_eq!(tree_widget.selected_id, child6_id);

    tree_widget.select_prev(1);
    assert_eq!(tree_widget.selected_id, child5_id);

    tree_widget.select_prev(1);
    assert_eq!(tree_widget.selected_id, child1_id);

    tree_widget.select_prev(1);
    assert_eq!(tree_widget.selected_id, tree_widget.root_id);
}

#[test]
fn test_prev_for_opented_children() {
    // root
    // ├─child1
    // │ ├─child2
    // │ ├─child3
    // │   ├─child4
    // ├─child5
    // ├─child6
    let mut tree_widget = TreeWidget::new("root".to_string());
    let child1_id = tree_widget.add_child("child1", tree_widget.root_id, None);
    let child2_id = tree_widget.add_child("child2", child1_id, None);
    let child3_id = tree_widget.add_child("child3", child1_id, None);
    let child4_id = tree_widget.add_child("child4", child3_id, None);
    let child5_id = tree_widget.add_child("child5", tree_widget.root_id, None);
    let child6_id = tree_widget.add_child("child6", tree_widget.root_id, None);
    tree_widget.open(tree_widget.root_id);
    tree_widget.open(child1_id);
    tree_widget.open(child3_id);
    tree_widget.selected_id = child6_id;

    tree_widget.select_prev(1);
    assert_eq!(tree_widget.selected_id, child5_id);

    tree_widget.select_prev(1);
    assert_eq!(tree_widget.selected_id, child4_id);

    tree_widget.select_prev(1);
    assert_eq!(tree_widget.selected_id, child3_id);

    tree_widget.select_prev(1);
    assert_eq!(tree_widget.selected_id, child2_id);

    tree_widget.select_prev(1);
    assert_eq!(tree_widget.selected_id, child1_id);

    tree_widget.select_prev(1);
    assert_eq!(tree_widget.selected_id, tree_widget.root_id);
}

#[test]
fn test_level() {
    // root
    // ├─child1
    // │ ├─child2
    // │ ├─child3
    // │   ├─child4
    // ├─child5
    // ├─child6
    let mut tree_widget = TreeWidget::new("root".to_string());
    let child1_id = tree_widget.add_child("child1", tree_widget.root_id, None);
    let child2_id = tree_widget.add_child("child2", child1_id, None);
    let child3_id = tree_widget.add_child("child3", child1_id, None);
    let child4_id = tree_widget.add_child("child4", child3_id, None);
    let child5_id = tree_widget.add_child("child5", tree_widget.root_id, None);
    let child6_id = tree_widget.add_child("child6", tree_widget.root_id, None);

    assert_eq!(tree_widget.level(tree_widget.root_id), 0);
    assert_eq!(tree_widget.level(child1_id), 1);
    assert_eq!(tree_widget.level(child2_id), 2);
    assert_eq!(tree_widget.level(child3_id), 2);
    assert_eq!(tree_widget.level(child4_id), 3);
    assert_eq!(tree_widget.level(child5_id), 1);
    assert_eq!(tree_widget.level(child6_id), 1);
}

#[test]
fn test_visible_nodes_with_idx_closed() {
    let mut tree_widget = TreeWidget::new("root".to_string());
    let child1_id = tree_widget.add_child("child1", tree_widget.root_id, None);
    tree_widget.add_child("child2", child1_id, None);
    let child3_id = tree_widget.add_child("child3", child1_id, None);
    tree_widget.add_child("child4", child3_id, None);
    let child5_id = tree_widget.add_child("child5", tree_widget.root_id, None);
    let child6_id = tree_widget.add_child("child6", tree_widget.root_id, None);
    tree_widget.open(tree_widget.root_id);

    let vni = tree_widget.visible_nodes();
    assert_eq!(vni.len(), 4);
    assert_eq!(vni.iter().position(|&id| id == tree_widget.root_id).unwrap(), 0);
    assert_eq!(vni.iter().position(|&id| id == child1_id).unwrap(), 1);
    assert_eq!(vni.iter().position(|&id| id == child5_id).unwrap(), 2);
    assert_eq!(vni.iter().position(|&id| id == child6_id).unwrap(), 3);
}

#[test]
fn test_visible_nodes_with_idx_all_open() {
    let mut tree_widget = TreeWidget::new("root".to_string());
    let child1_id = tree_widget.add_child("child1", tree_widget.root_id, None);
    let child2_id = tree_widget.add_child("child2", child1_id, None);
    let child3_id = tree_widget.add_child("child3", child1_id, None);
    let child4_id = tree_widget.add_child("child4", child3_id, None);
    let child5_id = tree_widget.add_child("child5", tree_widget.root_id, None);
    let child6_id = tree_widget.add_child("child6", tree_widget.root_id, None);
    tree_widget.open(tree_widget.root_id);
    tree_widget.open(child1_id);
    tree_widget.open(child3_id);

    let vni = tree_widget.visible_nodes();
    assert_eq!(vni.len(), 7);
    assert_eq!(vni.iter().position(|&id| id == tree_widget.root_id).unwrap(), 0);
    assert_eq!(vni.iter().position(|&id| id == child1_id).unwrap(), 1);
    assert_eq!(vni.iter().position(|&id| id == child2_id).unwrap(), 2);
    assert_eq!(vni.iter().position(|&id| id == child3_id).unwrap(), 3);
    assert_eq!(vni.iter().position(|&id| id == child4_id).unwrap(), 4);
    assert_eq!(vni.iter().position(|&id| id == child5_id).unwrap(), 5);
    assert_eq!(vni.iter().position(|&id| id == child6_id).unwrap(), 6);
}
