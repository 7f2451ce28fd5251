//! End-to-end layout scenarios.  All lengths are plain integer pixel
//! units; where a fraction of a pixel matters the tests use hundredths of
//! a pixel as the unit.

use ui_layout::cache::LayoutCache;
use ui_layout::geom::{Rect, Size};
use ui_layout::solver::{layout, ContentMap};
use ui_layout::style::{Style, StyleMap};
use ui_layout::tree::Tree;
use ui_layout::units::{LayoutType, PositionType, Unit};

fn viewport(w: i64, h: i64) -> Rect {
    Rect { posx: 0, posy: 0, width: w, height: h }
}

fn run(tree: &Tree, styles: &StyleMap, content: &ContentMap, vp: Rect) -> LayoutCache {
    let mut cache = LayoutCache::new();
    layout(&mut cache, tree, styles, content, vp);
    cache
}

#[test]
fn root_takes_the_viewport() {
    let tree = Tree::new(1, 0);
    let mut styles = StyleMap::new(1);
    styles.set(0, Style::new());
    let content = ContentMap::new(1);
    let cache = run(&tree, &styles, &content, Rect { posx: 3, posy: 4, width: 800, height: 600 });
    let r = cache.rect(0);
    assert_eq!((r.posx, r.posy, r.width, r.height), (3, 4, 800, 600));
}

#[test]
fn viewport_sizes_saturate_at_zero() {
    let tree = Tree::new(1, 0);
    let mut styles = StyleMap::new(1);
    styles.set(0, Style::new());
    let content = ContentMap::new(1);
    let cache = run(&tree, &styles, &content, Rect { posx: 0, posy: 0, width: -50, height: 600 });
    assert_eq!(cache.width(0), 0);
    assert_eq!(cache.height(0), 600);
}

// Scenario: a single root of 800x600 hundredth-units holds one row
// container with two stretch children of weights 1 and 2.  The children
// split the row 1:2 (266.66 and 533.33 pixels in hundredths).
#[test]
fn two_stretch_children_split_a_row() {
    let mut tree = Tree::new(4, 0);
    tree.attach_children(0, &vec![1]);
    tree.attach_children(1, &vec![2, 3]);
    let mut styles = StyleMap::new(4);
    styles.set(0, Style::new());
    let mut row = Style::new();
    row.layout_type = LayoutType::Row;
    row.width = Unit::Stretch(1);
    row.height = Unit::Stretch(1);
    styles.set(1, row);
    let mut a = Style::new();
    a.width = Unit::Stretch(1);
    a.height = Unit::Stretch(1);
    styles.set(2, a);
    let mut b = Style::new();
    b.width = Unit::Stretch(2);
    b.height = Unit::Stretch(1);
    styles.set(3, b);
    let content = ContentMap::new(4);
    let cache = run(&tree, &styles, &content, viewport(80000, 60000));

    let rc = cache.rect(1);
    assert_eq!((rc.posx, rc.posy, rc.width, rc.height), (0, 0, 80000, 60000));
    let ra = cache.rect(2);
    assert_eq!((ra.posx, ra.posy, ra.width, ra.height), (0, 0, 26666, 60000));
    let rb = cache.rect(3);
    assert_eq!((rb.posx, rb.posy, rb.width, rb.height), (26666, 0, 53333, 60000));
}

// Scenario: 400 units of free space shared by stretch weights 1 and 3
// resolve to exactly 100 and 300, with zero remainder.
#[test]
fn stretch_shares_are_proportional() {
    let mut tree = Tree::new(3, 0);
    tree.attach_children(0, &vec![1, 2]);
    let mut styles = StyleMap::new(3);
    let mut root = Style::new();
    root.width = Unit::Pixels(400);
    root.height = Unit::Pixels(100);
    styles.set(0, root);
    let mut a = Style::new();
    a.width = Unit::Stretch(1);
    a.height = Unit::Pixels(100);
    styles.set(1, a);
    let mut b = Style::new();
    b.width = Unit::Stretch(3);
    b.height = Unit::Pixels(100);
    styles.set(2, b);
    let content = ContentMap::new(3);
    let cache = run(&tree, &styles, &content, viewport(400, 100));

    assert_eq!(cache.width(1), 100);
    assert_eq!(cache.width(2), 300);
    assert_eq!(cache.posx(1), 0);
    assert_eq!(cache.posx(2), 100);
    // the container records the free space and the weight sum
    assert_eq!(cache.horizontal_free_space(0), 400);
    assert_eq!(cache.horizontal_stretch_sum(0), 4);
}

// Scenario: a node of width 100 with a uniform border of 5 leaves a
// 90-unit content box, so a child of width 100% resolves to 90.
#[test]
fn border_shrinks_the_content_box() {
    let mut tree = Tree::new(2, 0);
    tree.attach_children(0, &vec![1]);
    let mut styles = StyleMap::new(2);
    let mut outer = Style::new();
    outer.width = Unit::Pixels(100);
    outer.height = Unit::Pixels(100);
    outer.border = Unit::Pixels(5);
    styles.set(0, outer);
    let mut inner = Style::new();
    inner.width = Unit::Percentage(100);
    inner.height = Unit::Percentage(100);
    styles.set(1, inner);
    let content = ContentMap::new(2);
    let cache = run(&tree, &styles, &content, viewport(100, 100));

    assert_eq!(cache.width(1), 90);
    assert_eq!(cache.height(1), 90);
    assert_eq!(cache.posx(1), 5);
    assert_eq!(cache.posy(1), 5);
}

// Scenario: a child spanning rows 0..2 of a three-row grid covers exactly
// the union of tracks 0 and 1; changing track 2 does not move it.
#[test]
fn grid_span_covers_its_tracks_only() {
    let build = |third_row: i64| -> LayoutCache {
        let mut tree = Tree::new(2, 0);
        tree.attach_children(0, &vec![1]);
        let mut styles = StyleMap::new(2);
        let mut g = Style::new();
        g.layout_type = LayoutType::Grid;
        g.width = Unit::Pixels(100);
        g.height = Unit::Pixels(100);
        g.grid_rows = vec![Unit::Pixels(10), Unit::Pixels(20), Unit::Pixels(third_row)];
        g.grid_cols = vec![Unit::Pixels(50)];
        styles.set(0, g);
        let mut c = Style::new();
        c.row_index = 0;
        c.row_span = 2;
        c.col_index = 0;
        c.col_span = 1;
        styles.set(1, c);
        let content = ContentMap::new(2);
        run(&tree, &styles, &content, viewport(100, 100))
    };
    let cache = build(30);
    assert_eq!(cache.posy(1), 0);
    assert_eq!(cache.height(1), 30);  // tracks 0 and 1: 10 + 20
    assert_eq!(cache.posx(1), 0);
    assert_eq!(cache.width(1), 50);
    // a different third track leaves the span untouched
    let other = build(99);
    assert_eq!(other.posy(1), 0);
    assert_eq!(other.height(1), 30);
}

#[test]
fn grid_without_declared_tracks_fills_the_content() {
    let mut tree = Tree::new(2, 0);
    tree.attach_children(0, &vec![1]);
    let mut styles = StyleMap::new(2);
    let mut g = Style::new();
    g.layout_type = LayoutType::Grid;
    g.width = Unit::Pixels(120);
    g.height = Unit::Pixels(80);
    styles.set(0, g);
    styles.set(1, Style::new());
    let content = ContentMap::new(2);
    let cache = run(&tree, &styles, &content, viewport(120, 80));
    assert_eq!(cache.width(1), 120);
    assert_eq!(cache.height(1), 80);
}

// Scenario: a node without a style record gets a zero-sized rectangle at
// its parent's origin, and its siblings are placed as if it used no
// space.
#[test]
fn absent_style_pins_a_zero_rect_at_the_parent_origin() {
    let mut tree = Tree::new(4, 0);
    tree.attach_children(0, &vec![1, 2, 3]);
    let mut styles = StyleMap::new(4);
    let mut root = Style::new();
    root.width = Unit::Pixels(300);
    root.height = Unit::Pixels(100);
    styles.set(0, root);
    let mut a = Style::new();
    a.width = Unit::Pixels(100);
    a.height = Unit::Pixels(100);
    styles.set(1, a);
    // node 2 has no style record
    let mut c = Style::new();
    c.width = Unit::Pixels(50);
    c.height = Unit::Pixels(100);
    styles.set(3, c);
    let content = ContentMap::new(4);
    let cache = run(&tree, &styles, &content, viewport(300, 100));

    let r2 = cache.rect(2);
    assert_eq!((r2.posx, r2.posy, r2.width, r2.height), (0, 0, 0, 0));
    // sibling placement is unaffected by the styleless node
    assert_eq!(cache.posx(1), 0);
    assert_eq!(cache.posx(3), 100);
}

// Determinism: relaying out with unchanged inputs produces identical
// rectangles, whatever the cache held before.
#[test]
fn relayout_is_deterministic() {
    let mut tree = Tree::new(3, 0);
    tree.attach_children(0, &vec![1, 2]);
    let mut styles = StyleMap::new(3);
    styles.set(0, Style::new());
    let mut a = Style::new();
    a.width = Unit::Stretch(1);
    a.height = Unit::Pixels(10);
    styles.set(1, a);
    let mut b = Style::new();
    b.width = Unit::Pixels(30);
    b.height = Unit::Pixels(10);
    styles.set(2, b);
    let content = ContentMap::new(3);
    let c1 = run(&tree, &styles, &content, viewport(200, 50));
    let mut c2 = LayoutCache::new();
    // an unrelated, stale entry must not influence the outcome
    c2.add(1);
    c2.set_width(1, 12345);
    layout(&mut c2, &tree, &styles, &content, viewport(200, 50));
    for n in 0..3usize {
        assert_eq!(c1.rect(n), c2.rect(n));
    }
}

// Idempotence under no-op: a second relayout of the same inputs leaves
// every cached rectangle unchanged.
#[test]
fn relayout_is_idempotent() {
    let mut tree = Tree::new(3, 0);
    tree.attach_children(0, &vec![1, 2]);
    let mut styles = StyleMap::new(3);
    styles.set(0, Style::new());
    let mut a = Style::new();
    a.width = Unit::Percentage(25);
    a.height = Unit::Stretch(1);
    styles.set(1, a);
    let mut b = Style::new();
    b.width = Unit::Pixels(40);
    b.height = Unit::Pixels(20);
    styles.set(2, b);
    let content = ContentMap::new(3);
    let mut cache = run(&tree, &styles, &content, viewport(200, 50));
    let first: Vec<Rect> = (0..3usize).map(|n| cache.rect(n)).collect();
    layout(&mut cache, &tree, &styles, &content, viewport(200, 50));
    for n in 0..3usize {
        assert_eq!(cache.rect(n), first[n]);
    }
}

#[test]
fn auto_sizes_measure_children() {
    // a row with Auto width sums its children; the column case takes the
    // maximum width instead
    let mut tree = Tree::new(4, 0);
    tree.attach_children(0, &vec![1]);
    tree.attach_children(1, &vec![2, 3]);
    let mut styles = StyleMap::new(4);
    let mut root = Style::new();
    root.width = Unit::Pixels(500);
    root.height = Unit::Pixels(100);
    styles.set(0, root);
    let mut row = Style::new();
    row.layout_type = LayoutType::Row;
    // width and height stay Auto: measured from the children
    styles.set(1, row);
    let mut a = Style::new();
    a.width = Unit::Pixels(30);
    a.height = Unit::Pixels(7);
    styles.set(2, a);
    let mut b = Style::new();
    b.width = Unit::Pixels(40);
    b.height = Unit::Pixels(9);
    styles.set(3, b);
    let content = ContentMap::new(4);
    let cache = run(&tree, &styles, &content, viewport(500, 100));

    assert_eq!(cache.new_width(1), 70);  // sum of 30 and 40
    assert_eq!(cache.new_height(1), 9);  // tallest child
    assert_eq!(cache.width(1), 70);
    assert_eq!(cache.child_width_sum(1), 70);
    assert_eq!(cache.child_width_max(1), 40);
    assert_eq!(cache.child_height_sum(1), 16);
    assert_eq!(cache.child_height_max(1), 9);
}

#[test]
fn content_size_feeds_auto_leaves() {
    let mut tree = Tree::new(2, 0);
    tree.attach_children(0, &vec![1]);
    let mut styles = StyleMap::new(2);
    let mut root = Style::new();
    root.width = Unit::Pixels(500);
    root.height = Unit::Pixels(100);
    styles.set(0, root);
    styles.set(1, Style::new());
    let mut content = ContentMap::new(2);
    content.set(1, Size { width: 77, height: 13 });
    let cache = run(&tree, &styles, &content, viewport(500, 100));
    assert_eq!(cache.width(1), 77);
    assert_eq!(cache.height(1), 13);
}

#[test]
fn min_and_max_clamp_sizes() {
    let mut tree = Tree::new(3, 0);
    tree.attach_children(0, &vec![1, 2]);
    let mut styles = StyleMap::new(3);
    let mut root = Style::new();
    root.width = Unit::Pixels(1000);
    root.height = Unit::Pixels(100);
    styles.set(0, root);
    let mut a = Style::new();
    a.width = Unit::Pixels(500);
    a.max_width = Unit::Pixels(200);
    a.height = Unit::Pixels(10);
    styles.set(1, a);
    // when the bounds cross, the lower bound wins
    let mut b = Style::new();
    b.width = Unit::Pixels(50);
    b.min_width = Unit::Pixels(300);
    b.max_width = Unit::Pixels(100);
    b.height = Unit::Pixels(10);
    styles.set(2, b);
    let content = ContentMap::new(3);
    let cache = run(&tree, &styles, &content, viewport(1000, 100));
    assert_eq!(cache.width(1), 200);
    assert_eq!(cache.width(2), 300);
}

#[test]
fn gaps_separate_flow_children() {
    let mut tree = Tree::new(3, 0);
    tree.attach_children(0, &vec![1, 2]);
    let mut styles = StyleMap::new(3);
    let mut root = Style::new();
    root.width = Unit::Pixels(400);
    root.height = Unit::Pixels(100);
    root.col_between = Unit::Pixels(10);
    styles.set(0, root);
    let mut a = Style::new();
    a.width = Unit::Pixels(100);
    a.height = Unit::Pixels(10);
    styles.set(1, a);
    let mut b = Style::new();
    b.width = Unit::Pixels(50);
    b.height = Unit::Pixels(10);
    styles.set(2, b);
    let content = ContentMap::new(3);
    let cache = run(&tree, &styles, &content, viewport(400, 100));
    assert_eq!(cache.posx(1), 0);
    assert_eq!(cache.posx(2), 110);
    // used space is 100 + 10 + 50, so 240 units stay free
    assert_eq!(cache.horizontal_free_space(0), 240);
}

#[test]
fn self_directed_children_leave_the_flow() {
    let mut tree = Tree::new(4, 0);
    tree.attach_children(0, &vec![1, 2, 3]);
    let mut styles = StyleMap::new(4);
    let mut root = Style::new();
    root.width = Unit::Pixels(300);
    root.height = Unit::Pixels(100);
    styles.set(0, root);
    let mut float = Style::new();
    float.position_type = PositionType::SelfDirected;
    float.left = Unit::Pixels(10);
    float.top = Unit::Pixels(20);
    float.width = Unit::Pixels(30);
    float.height = Unit::Pixels(30);
    styles.set(1, float);
    let mut a = Style::new();
    a.width = Unit::Pixels(100);
    a.height = Unit::Pixels(10);
    styles.set(2, a);
    let mut b = Style::new();
    b.width = Unit::Pixels(50);
    b.height = Unit::Pixels(10);
    styles.set(3, b);
    let content = ContentMap::new(4);
    let cache = run(&tree, &styles, &content, viewport(300, 100));

    // the self-directed child is placed against the parent's rectangle
    assert_eq!(cache.posx(1), 10);
    assert_eq!(cache.posy(1), 20);
    assert_eq!(cache.width(1), 30);
    // the flow children ignore it
    assert_eq!(cache.posx(2), 0);
    assert_eq!(cache.posx(3), 100);
    // and the stack flags mark the flow children, not the floated one
    assert!(!cache.stack_first_child(1));
    assert!(cache.stack_first_child(2));
    assert!(!cache.stack_last_child(2));
    assert!(cache.stack_last_child(3));
}

#[test]
fn column_stacks_vertically() {
    let mut tree = Tree::new(3, 0);
    tree.attach_children(0, &vec![1, 2]);
    let mut styles = StyleMap::new(3);
    let mut root = Style::new();
    root.layout_type = LayoutType::Column;
    root.width = Unit::Pixels(100);
    root.height = Unit::Pixels(300);
    root.row_between = Unit::Pixels(5);
    styles.set(0, root);
    let mut a = Style::new();
    a.width = Unit::Pixels(100);
    a.height = Unit::Pixels(40);
    styles.set(1, a);
    let mut b = Style::new();
    b.width = Unit::Pixels(100);
    b.height = Unit::Stretch(1);
    styles.set(2, b);
    let content = ContentMap::new(3);
    let cache = run(&tree, &styles, &content, viewport(100, 300));
    assert_eq!(cache.posy(1), 0);
    assert_eq!(cache.posy(2), 45);
    // the stretch child takes what the fixed child and the gap leave
    assert_eq!(cache.height(2), 255);
    assert_eq!(cache.vertical_free_space(0), 255);
    assert_eq!(cache.vertical_stretch_sum(0), 1);
}

#[test]
fn child_insets_inherit_into_auto_edges() {
    let mut tree = Tree::new(2, 0);
    tree.attach_children(0, &vec![1]);
    let mut styles = StyleMap::new(2);
    let mut root = Style::new();
    root.width = Unit::Pixels(200);
    root.height = Unit::Pixels(100);
    root.child_left = Unit::Pixels(15);
    root.child_top = Unit::Pixels(25);
    styles.set(0, root);
    let mut a = Style::new();
    a.width = Unit::Pixels(50);
    a.height = Unit::Pixels(20);
    styles.set(1, a);
    let content = ContentMap::new(2);
    let cache = run(&tree, &styles, &content, viewport(200, 100));
    assert_eq!(cache.posx(1), 15);
    assert_eq!(cache.posy(1), 25);
    assert_eq!(cache.left(1), 15);
    assert_eq!(cache.top(1), 25);
}

#[test]
fn percentage_resolves_against_the_content_area() {
    let mut tree = Tree::new(2, 0);
    tree.attach_children(0, &vec![1]);
    let mut styles = StyleMap::new(2);
    let mut root = Style::new();
    root.width = Unit::Pixels(200);
    root.height = Unit::Pixels(80);
    styles.set(0, root);
    let mut a = Style::new();
    a.width = Unit::Percentage(50);
    a.height = Unit::Percentage(25);
    styles.set(1, a);
    let content = ContentMap::new(2);
    let cache = run(&tree, &styles, &content, viewport(200, 80));
    assert_eq!(cache.width(1), 100);
    assert_eq!(cache.height(1), 20);
}

#[test]
fn nodes_outside_the_root_subtree_are_untouched() {
    // node 3 exists but is never attached: the pass must not move it
    let mut tree = Tree::new(4, 0);
    tree.attach_children(0, &vec![1, 2]);
    let mut styles = StyleMap::new(4);
    styles.set(0, Style::new());
    styles.set(1, Style::new());
    styles.set(2, Style::new());
    let content = ContentMap::new(4);
    let mut cache = LayoutCache::new();
    cache.add(3);
    cache.set_width(3, 77);
    layout(&mut cache, &tree, &styles, &content, viewport(100, 100));
    assert_eq!(cache.width(3), 77);
}

// Conservation: when the children exactly fill the container, the sum of
// their main-axis sizes plus the inter-child gap equals the content-area
// size and no free space remains.
#[test]
fn exact_fill_leaves_no_free_space() {
    let mut tree = Tree::new(3, 0);
    tree.attach_children(0, &vec![1, 2]);
    let mut styles = StyleMap::new(3);
    let mut root = Style::new();
    root.width = Unit::Pixels(150);
    root.height = Unit::Pixels(50);
    root.col_between = Unit::Pixels(10);
    styles.set(0, root);
    let mut a = Style::new();
    a.width = Unit::Pixels(100);
    a.height = Unit::Pixels(50);
    styles.set(1, a);
    let mut b = Style::new();
    b.width = Unit::Pixels(40);
    b.height = Unit::Pixels(50);
    styles.set(2, b);
    let content = ContentMap::new(3);
    let cache = run(&tree, &styles, &content, viewport(150, 50));
    assert_eq!(cache.width(1) + 10 + cache.width(2), 150);
    assert_eq!(cache.horizontal_free_space(0), 0);
    assert_eq!(cache.posx(2), 110);
}

// Conservation with edge spaces: fixed left/right offsets take part in
// the accounting exactly like sizes do.
#[test]
fn edge_spaces_count_into_the_accounting() {
    let mut tree = Tree::new(2, 0);
    tree.attach_children(0, &vec![1]);
    let mut styles = StyleMap::new(2);
    let mut root = Style::new();
    root.width = Unit::Pixels(200);
    root.height = Unit::Pixels(50);
    styles.set(0, root);
    let mut a = Style::new();
    a.left = Unit::Pixels(5);
    a.right = Unit::Pixels(15);
    a.width = Unit::Pixels(100);
    a.height = Unit::Pixels(50);
    styles.set(1, a);
    let content = ContentMap::new(2);
    let cache = run(&tree, &styles, &content, viewport(200, 50));
    assert_eq!(cache.posx(1), 5);
    assert_eq!(cache.left(1), 5);
    assert_eq!(cache.right(1), 15);
    // 200 content minus 5 + 100 + 15 used
    assert_eq!(cache.horizontal_free_space(0), 80);
}
