use ui_layout::cache::LayoutCache;
use ui_layout::style::Style;
use ui_layout::tree::Tree;
use ui_layout::units::{LayoutType, PositionType, Unit};

#[test]
fn attach_children_builds_edges() {
    let mut t = Tree::new(5, 0);
    t.attach_children(0, &vec![1, 2]);
    t.attach_children(1, &vec![3, 4]);
    assert_eq!(t.parent(0), None);
    assert_eq!(t.parent(1), Some(0));
    assert_eq!(t.parent(2), Some(0));
    assert_eq!(t.parent(3), Some(1));
    assert_eq!(t.parent(4), Some(1));
    assert_eq!(t.get_first_child(0), Some(1));
    assert_eq!(t.get_first_child(1), Some(3));
    assert_eq!(t.get_first_child(2), None);
    assert_eq!(t.get_next_sibling(1), Some(2));
    assert_eq!(t.get_next_sibling(2), None);
    assert_eq!(t.get_next_sibling(3), Some(4));
}

#[test]
fn flatten_is_preorder() {
    let mut t = Tree::new(6, 0);
    t.attach_children(0, &vec![1, 4]);
    t.attach_children(1, &vec![2, 3]);
    t.attach_children(4, &vec![5]);
    let order = t.flatten();
    assert_eq!(order, vec![0, 1, 2, 3, 4, 5]);
    assert_eq!(t.down_iter(), vec![0, 1, 2, 3, 4, 5]);
    assert_eq!(t.up_iter(), vec![5, 4, 3, 2, 1, 0]);
}

#[test]
fn flatten_deep_chain() {
    // a path 0 -> 1 -> 2 -> 3: the climb has to walk all the way back up
    let mut t = Tree::new(5, 0);
    t.attach_children(0, &vec![1, 4]);
    t.attach_children(1, &vec![2]);
    t.attach_children(2, &vec![3]);
    assert_eq!(t.flatten(), vec![0, 1, 2, 3, 4]);
}

#[test]
fn first_and_last_child_flags() {
    let mut t = Tree::new(4, 0);
    t.attach_children(0, &vec![1, 2, 3]);
    assert!(t.is_first_child(1));
    assert!(!t.is_first_child(2));
    assert!(!t.is_first_child(3));
    assert!(!t.is_first_child(0));
    assert!(t.is_last_child(3));
    assert!(!t.is_last_child(1));
    assert!(!t.is_last_child(2));
    assert!(!t.is_last_child(0));
}

#[test]
fn children_lists_immediate_children() {
    let mut t = Tree::new(5, 0);
    t.attach_children(0, &vec![1, 2]);
    t.attach_children(2, &vec![3, 4]);
    assert_eq!(t.child_iter(0), vec![1, 2]);
    assert_eq!(t.child_iter(1), Vec::<usize>::new());
    assert_eq!(t.child_iter(2), vec![3, 4]);
}

#[test]
fn cache_defaults_and_registration() {
    let mut cache = LayoutCache::new();
    // getters on an unregistered node return the zero default
    assert_eq!(cache.posx(3), 0);
    assert_eq!(cache.width(3), 0);
    assert!(!cache.stack_first_child(3));
    // setters on an unregistered node are a no-op
    cache.set_width(3, 44);
    assert_eq!(cache.width(3), 0);
    // after registration the entry is live
    cache.add(3);
    cache.set_width(3, 44);
    cache.set_posx(3, -7);
    assert_eq!(cache.width(3), 44);
    assert_eq!(cache.posx(3), -7);
    // registration is idempotent in effect: the entry survives
    cache.add(3);
    assert_eq!(cache.width(3), 44);
    // other quantities
    cache.set_child_width_sum(3, 10);
    cache.set_horizontal_free_space(3, 20);
    cache.set_stack_last_child(3, true);
    assert_eq!(cache.child_width_sum(3), 10);
    assert_eq!(cache.horizontal_free_space(3), 20);
    assert!(cache.stack_last_child(3));
    let r = cache.rect(3);
    assert_eq!(r.posx, -7);
    assert_eq!(r.width, 44);
}

#[test]
fn cache_tracks_every_quantity() {
    let mut cache = LayoutCache::new();
    cache.add(0);
    cache.set_posy(0, 1);
    cache.set_height(0, 2);
    cache.set_left(0, 3);
    cache.set_right(0, 4);
    cache.set_top(0, 5);
    cache.set_bottom(0, 6);
    cache.set_new_width(0, 7);
    cache.set_new_height(0, 8);
    cache.set_child_width_max(0, 9);
    cache.set_child_height_sum(0, 10);
    cache.set_child_height_max(0, 11);
    cache.set_grid_row_max(0, 12);
    cache.set_grid_col_max(0, 13);
    cache.set_vertical_free_space(0, 14);
    cache.set_horizontal_stretch_sum(0, 15);
    cache.set_vertical_stretch_sum(0, 16);
    cache.set_stack_first_child(0, true);
    assert_eq!(cache.posy(0), 1);
    assert_eq!(cache.height(0), 2);
    assert_eq!(cache.left(0), 3);
    assert_eq!(cache.right(0), 4);
    assert_eq!(cache.top(0), 5);
    assert_eq!(cache.bottom(0), 6);
    assert_eq!(cache.new_width(0), 7);
    assert_eq!(cache.new_height(0), 8);
    assert_eq!(cache.child_width_max(0), 9);
    assert_eq!(cache.child_height_sum(0), 10);
    assert_eq!(cache.child_height_max(0), 11);
    assert_eq!(cache.grid_row_max(0), 12);
    assert_eq!(cache.grid_col_max(0), 13);
    assert_eq!(cache.vertical_free_space(0), 14);
    assert_eq!(cache.horizontal_stretch_sum(0), 15);
    assert_eq!(cache.vertical_stretch_sum(0), 16);
    assert!(cache.stack_first_child(0));
}

#[test]
fn default_style_is_fully_unconstrained() {
    let st = Style::new();
    assert_eq!(st.layout_type, LayoutType::Row);
    assert_eq!(st.position_type, PositionType::ParentDirected);
    assert_eq!(st.width, Unit::Auto);
    assert_eq!(st.height, Unit::Auto);
    assert_eq!(st.border, Unit::Auto);
    assert_eq!(st.row_span, 1);
    assert_eq!(st.col_span, 1);
    assert!(st.grid_rows.is_empty());
    assert!(st.grid_cols.is_empty());
}
