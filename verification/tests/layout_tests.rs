use yabai_rs::accordion::AccordionLayout;
use yabai_rs::geometry::{Gaps, Rect};
use yabai_rs::tiles::TilesLayout;
use yabai_rs::tree::Tree;

fn gaps10() -> Gaps {
    Gaps { inner_h: 10, inner_v: 10, outer_left: 10, outer_right: 10, outer_top: 10, outer_bottom: 10 }
}

fn screen() -> Rect {
    Rect { x: 0, y: 0, width: 1920, height: 1080 }
}

fn rect(x: i32, y: i32, width: i32, height: i32) -> Rect {
    Rect { x, y, width, height }
}

#[test]
fn shrink_takes_outer_gaps_off_each_side() {
    let g = Gaps { inner_h: 0, inner_v: 0, outer_left: 1, outer_right: 2, outer_top: 3, outer_bottom: 4 };
    assert_eq!(g.shrink(rect(100, 200, 50, 60)), rect(101, 203, 47, 53));
    assert!(g.shrink_fits_exec(rect(100, 200, 50, 60)));
    let huge = Gaps { inner_h: 0, inner_v: 0, outer_left: i32::MAX, outer_right: 0, outer_top: 0, outer_bottom: 0 };
    assert!(!huge.shrink_fits_exec(rect(1, 0, 10, 10)));
}

#[test]
fn tiles_of_empty_tree_is_empty() {
    let tree = Tree::new();
    let layout = TilesLayout { tree: &tree };
    assert_eq!(layout.compute(screen(), &gaps10()), vec![]);
}

#[test]
fn tiles_single_window_fills_inner_area() {
    let mut tree = Tree::new();
    tree.insert_window(1);
    let layout = TilesLayout { tree: &tree };
    assert_eq!(layout.compute(screen(), &gaps10()), vec![(1, rect(10, 10, 1900, 1060))]);
}

#[test]
fn tiles_two_windows_split_in_halves_with_inner_gap() {
    let mut tree = Tree::new();
    tree.insert_window(1);
    tree.insert_window(2);
    let layout = TilesLayout { tree: &tree };
    assert_eq!(
        layout.compute(screen(), &gaps10()),
        vec![(1, rect(10, 10, 945, 1060)), (2, rect(965, 10, 945, 1060))]
    );
}

#[test]
fn tiles_three_windows_nest_left() {
    let mut tree = Tree::new();
    tree.insert_window(1);
    tree.insert_window(2);
    tree.insert_window(3);
    let layout = TilesLayout { tree: &tree };
    assert_eq!(
        layout.compute(screen(), &gaps10()),
        vec![
            (1, rect(10, 10, 467, 1060)),
            (2, rect(487, 10, 468, 1060)),
            (3, rect(965, 10, 945, 1060)),
        ]
    );
}

#[test]
fn tiles_collapsed_child_takes_two_thirds() {
    let mut tree = Tree::new();
    tree.insert_window(1);
    tree.insert_window(2);
    tree.insert_window(3);
    tree.remove_window(1);
    let layout = TilesLayout { tree: &tree };
    // window 2 keeps ratio 1 next to window 3's 1/2: it takes 2/3 of 1900
    assert_eq!(
        layout.compute(screen(), &gaps10()),
        vec![(2, rect(10, 10, 1261, 1060)), (3, rect(1281, 10, 629, 1060))]
    );
}

#[test]
fn tiles_overflow_is_reported() {
    let mut tree = Tree::new();
    tree.insert_window(1);
    tree.insert_window(2);
    let layout = TilesLayout { tree: &tree };
    let wide = rect(i32::MAX - 100, 0, 100, 10);
    let g = Gaps { inner_h: 0, inner_v: 0, outer_left: 0, outer_right: 0, outer_top: 0, outer_bottom: 0 };
    assert_eq!(layout.try_compute(wide, &g), Some(vec![(1, rect(i32::MAX - 100, 0, 50, 10)), (2, rect(i32::MAX - 50, 0, 50, 10))]));
    let big_gap = Gaps { inner_h: 0, inner_v: 0, outer_left: i32::MAX, outer_right: 0, outer_top: 0, outer_bottom: 0 };
    assert_eq!(layout.try_compute(rect(5, 0, 10, 10), &big_gap), None);
}

#[test]
fn tiles_negative_width_rounds_toward_zero() {
    let mut tree = Tree::new();
    tree.insert_window(1);
    tree.insert_window(2);
    tree.insert_window(3);
    tree.remove_window(1);
    let layout = TilesLayout { tree: &tree };
    let g = Gaps { inner_h: 0, inner_v: 0, outer_left: 0, outer_right: 0, outer_top: 0, outer_bottom: 0 };
    // -100 * 2 / 3 = -66.67 truncates to -66
    assert_eq!(
        layout.compute(rect(0, 0, -100, 5), &g),
        vec![(2, rect(0, 0, -66, 5)), (3, rect(-66, 0, -34, 5))]
    );
}

#[test]
fn accordion_stacks_with_padding() {
    let layout = AccordionLayout { padding: 30 };
    let frames = layout.compute(&[4, 5, 6], screen(), &gaps10(), Some(5));
    assert_eq!(
        frames,
        vec![
            (4, rect(10, 10, 1840, 1000)),
            (5, rect(40, 40, 1840, 1000)),
            (6, rect(70, 70, 1840, 1000)),
        ]
    );
    assert_eq!(layout.compute(&[4, 5, 6], screen(), &gaps10(), None), frames);
}

#[test]
fn accordion_of_no_windows_is_empty() {
    let layout = AccordionLayout { padding: 30 };
    assert_eq!(layout.compute(&[], screen(), &gaps10(), None), vec![]);
}

#[test]
fn accordion_fits_checks_range() {
    let layout = AccordionLayout { padding: 30 };
    assert!(layout.fits_exec(3, screen(), &gaps10()));
    let huge = AccordionLayout { padding: i32::MAX };
    assert!(!huge.fits_exec(3, screen(), &gaps10()));
    assert!(huge.fits_exec(1, screen(), &gaps10()));
}

#[test]
fn tiles_give_each_window_one_frame() {
    let mut tree = Tree::new();
    for w in [7, 3, 9, 3, 1] {
        tree.insert_window(w);
    }
    tree.remove_window(9);
    let layout = TilesLayout { tree: &tree };
    let mut ids: Vec<u32> = layout.compute(screen(), &gaps10()).iter().map(|(w, _)| *w).collect();
    ids.sort();
    assert_eq!(ids, vec![1, 3, 3, 7]);
    let mut leaves = tree.window_ids();
    leaves.sort();
    assert_eq!(ids, leaves);
}

#[test]
fn tiles_odd_inner_gap_rounds_down_to_even() {
    let mut tree = Tree::new();
    tree.insert_window(1);
    tree.insert_window(2);
    let layout = TilesLayout { tree: &tree };
    let g = Gaps { inner_h: 11, inner_v: 11, outer_left: 0, outer_right: 0, outer_top: 0, outer_bottom: 0 };
    let frames = layout.compute(rect(0, 0, 100, 50), &g);
    assert_eq!(frames, vec![(1, rect(0, 0, 45, 50)), (2, rect(55, 0, 45, 50))]);
    // no overlap, no hole: the second ends where the area ends, 2 * (11 / 2) apart
    assert_eq!(frames[1].1.x + frames[1].1.width, 100);
    assert_eq!(frames[1].1.x - (frames[0].1.x + frames[0].1.width), 10);
}

#[test]
fn inserted_windows_tile_in_a_row_in_insertion_order() {
    let mut tree = Tree::new();
    for w in [4, 8, 15, 16] {
        tree.insert_window(w);
    }
    let layout = TilesLayout { tree: &tree };
    let frames = layout.compute(screen(), &gaps10());
    assert_eq!(frames.iter().map(|(w, _)| *w).collect::<Vec<_>>(), vec![4, 8, 15, 16]);
    assert_eq!(frames[0].1.x, 10);
    assert_eq!(frames[3].1.x + frames[3].1.width, 1910);
    for i in 0..3 {
        assert_eq!(frames[i].1.x + frames[i].1.width + 10, frames[i + 1].1.x);
    }
    for (_, r) in &frames {
        assert_eq!((r.y, r.height), (10, 1060));
    }
}

#[test]
fn accordion_of_no_windows_needs_no_stack_arithmetic() {
    let layout = AccordionLayout { padding: 30 };
    let g = Gaps { inner_h: 0, inner_v: 0, outer_left: 0, outer_right: 0, outer_top: 0, outer_bottom: 0 };
    let wide = rect(0, 0, i32::MAX, 10);
    assert!(layout.fits_exec(0, wide, &g));
    assert_eq!(layout.compute(&[], wide, &g, None), vec![]);
    assert!(layout.fits_exec(2, wide, &g));
    assert!(!AccordionLayout { padding: -30 }.fits_exec(2, wide, &g));
}
