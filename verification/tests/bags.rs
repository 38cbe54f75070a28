use grocery_bagger::bags::{
    container_space_needed, replace_full_bags, top_row_full, BagReplacementFsm, BagSize,
};
use grocery_bagger::nominos::NominoColor;

#[test]
fn bag_sizes_and_capacities() {
    assert_eq!(BagSize::large().capacity(), 36);
    assert_eq!(BagSize::small().capacity(), 12);
    let size = BagSize::new(4, 2);
    assert_eq!((size.width(), size.height(), size.capacity()), (4, 2, 8));
}

#[test]
fn container_width_adds_spacing_between_bags() {
    let sizes = [
        BagSize::large(),
        BagSize::small(),
        BagSize::new(4, 2),
        BagSize::small(),
        BagSize::large(),
    ];
    assert_eq!(container_space_needed(&sizes), 30);
    assert_eq!(container_space_needed(&[BagSize::small()]), 3);
}

#[test]
fn bag_is_filled_when_its_top_row_is_full() {
    let g = Some(NominoColor::Gold);
    let full_top = vec![vec![None, g], vec![g, g]];
    let open_top = vec![vec![g, g], vec![g, None]];
    assert!(top_row_full(&full_top));
    assert!(!top_row_full(&open_top));
}

#[test]
fn filled_bags_are_replaced_until_the_belt_runs_empty() {
    let mut fsm = BagReplacementFsm::default();
    let actions = replace_full_bags(&mut fsm, &[3, 5], false, &[1, 3, 5]);
    assert_eq!(actions.remove, vec![3, 5]);
    assert_eq!(actions.replace, vec![3, 5]);
    assert_eq!(fsm, BagReplacementFsm::Ready);

    let actions = replace_full_bags(&mut fsm, &[1], true, &[1, 3, 5]);
    assert_eq!(actions.remove, vec![1]);
    assert_eq!(actions.replace, vec![1]);
    assert_eq!(fsm, BagReplacementFsm::BeltEmpty);

    let actions = replace_full_bags(&mut fsm, &[9], false, &[3, 5, 9]);
    assert_eq!(actions.remove, vec![3, 5, 9]);
    assert!(actions.replace.is_empty());
    assert_eq!(fsm, BagReplacementFsm::Ready);
}
