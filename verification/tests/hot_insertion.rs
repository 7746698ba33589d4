use std::collections::BTreeMap;

use schemweave::hot_insertion::{
    large_gap_hot_insertion_orders_with_rounds, refined_large_gap_hot_insertion_orders,
    run_large_gap_hot_insertion_range, run_large_gap_hot_insertion_rounds,
};

fn hot_cost(left: u32, right: u32) -> usize {
    if left == 4 && right != 4 {
        9
    } else if right == 4 {
        1
    } else if left > right {
        3
    } else {
        1
    }
}

#[test]
fn a_hot_net_moves_to_its_cheapest_position() {
    let mut order = vec![(4, 0), (1, 1), (2, 2), (3, 3)];
    let mut gain = 5;
    assert!(run_large_gap_hot_insertion_range(&mut order, &[4], &hot_cost, 0, 1, &mut gain));
    assert_eq!(order, vec![(1, 1), (2, 2), (3, 3), (4, 0)]);
    assert_eq!(gain, 5 + 27 - 3);

    let mut settled = vec![(1, 1), (2, 2), (3, 3), (4, 0)];
    let mut gain = 0;
    assert!(!run_large_gap_hot_insertion_range(&mut settled, &[4, 9], &hot_cost, 0, 2, &mut gain));
    assert_eq!(settled, vec![(1, 1), (2, 2), (3, 3), (4, 0)]);
    assert_eq!(gain, 0);
}

#[test]
fn hot_nets_move_in_turn() {
    let mut order = vec![(4, 0), (3, 1), (1, 2), (2, 3)];
    let mut gain = 0;
    assert!(run_large_gap_hot_insertion_range(&mut order, &[4, 3], &hot_cost, 0, 2, &mut gain));
    assert_eq!(order, vec![(1, 2), (2, 3), (3, 1), (4, 0)]);
    assert_eq!(gain, 28);
    let mut untouched = vec![(4, 0), (3, 1)];
    let mut gain = 3;
    assert!(!run_large_gap_hot_insertion_range(&mut untouched, &[4, 3], &hot_cost, 1, 1, &mut gain));
    assert_eq!(untouched, vec![(4, 0), (3, 1)]);
    assert_eq!(gain, 3);
}

#[test]
fn rounds_take_a_snapshot_in_the_first_pass() {
    let order = vec![(4, 0), (3, 1), (1, 2), (2, 3)];
    let final_lanes = BTreeMap::from([(1, 0), (2, 1), (3, 2), (4, 3)]);
    assert_eq!(
        run_large_gap_hot_insertion_rounds(order.clone(), &[4, 3], &hot_cost, 3, Some(1)),
        (
            Some((BTreeMap::from([(3, 0), (1, 1), (2, 2), (4, 3)]), 24)),
            Some((final_lanes.clone(), 28))
        )
    );
    assert_eq!(
        run_large_gap_hot_insertion_rounds(order.clone(), &[4, 3], &hot_cost, 3, None),
        (None, Some((final_lanes.clone(), 28)))
    );
    assert_eq!(
        run_large_gap_hot_insertion_rounds(order.clone(), &[4, 3], &hot_cost, 1, Some(5)),
        (Some((final_lanes.clone(), 28)), Some((final_lanes, 28)))
    );
    assert_eq!(
        run_large_gap_hot_insertion_rounds(order.clone(), &[4, 3], &hot_cost, 0, Some(1)),
        (None, None)
    );
    assert_eq!(
        run_large_gap_hot_insertion_rounds(order, &[9], &hot_cost, 2, Some(1)),
        (None, None)
    );
}

fn push_zero_out(left: u32, right: u32) -> usize {
    if left == 0 && right != 0 {
        10
    } else {
        1
    }
}

#[test]
fn only_large_gaps_get_hot_insertion_candidates() {
    let large = (0..34u32).map(|net| (net, net as usize)).collect::<BTreeMap<_, _>>();
    let mut expected = (1..34u32).map(|net| (net, net as usize - 1)).collect::<BTreeMap<_, _>>();
    expected.insert(0, 33);
    assert_eq!(
        large_gap_hot_insertion_orders_with_rounds(&large, &[0], 32, &push_zero_out, 1, None),
        (None, Some((expected.clone(), 297)))
    );
    let small = (0..32u32).map(|net| (net, net as usize)).collect::<BTreeMap<_, _>>();
    assert_eq!(
        large_gap_hot_insertion_orders_with_rounds(&small, &[0], 32, &push_zero_out, 1, None),
        (None, None)
    );

    let refined = refined_large_gap_hot_insertion_orders(&large, &[0], &push_zero_out);
    assert_eq!(refined.global, Some((expected.clone(), 297)));
    assert_eq!(refined.preserved_refined, Some((expected.clone(), 297)));
    assert_eq!(refined.refined, Some((expected, 297)));
    let none = refined_large_gap_hot_insertion_orders(&small, &[0], &push_zero_out);
    assert!(none.global.is_none() && none.preserved_refined.is_none() && none.refined.is_none());
}

#[test]
fn only_the_first_ranked_hot_nets_move() {
    let large = (0..34u32).map(|net| (net, net as usize)).collect::<BTreeMap<_, _>>();
    // Net 0 wants to be last and net 33 first; with a limit of one only the
    // first ranked net moves.
    let cost = |left: u32, right: u32| {
        if left == 0 && right != 0 {
            10
        } else if right == 33 && left != 33 {
            10
        } else {
            1
        }
    };
    let mut only_zero = (1..34u32).map(|net| (net, net as usize - 1)).collect::<BTreeMap<_, _>>();
    only_zero.insert(0, 33);
    assert_eq!(
        large_gap_hot_insertion_orders_with_rounds(&large, &[0, 33], 1, &cost, 1, None),
        (None, Some((only_zero, 297)))
    );
    let (_, both) = large_gap_hot_insertion_orders_with_rounds(&large, &[0, 33], 2, &cost, 1, None);
    let (lanes, gain) = both.unwrap();
    assert_eq!(lanes[&33], 0);
    assert_eq!(lanes[&0], 33);
    assert_eq!(gain, 585);
}
