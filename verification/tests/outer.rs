use std::collections::BTreeMap;

use schemweave::outer::{OuterLane, OuterSide, outer_lane_channels_match};

#[test]
fn endpoint_tracks_depend_only_on_outer_channel_coordinates() {
    let baseline = BTreeMap::from([(
        7,
        OuterLane {
            side: OuterSide::Top,
            side_index: 0,
            channel_index: 3,
            channel_count: 5,
        },
    )]);
    let side_only = BTreeMap::from([(
        7,
        OuterLane {
            side: OuterSide::Bottom,
            side_index: 4,
            channel_index: 3,
            channel_count: 5,
        },
    )]);
    let different_channel = BTreeMap::from([(
        7,
        OuterLane {
            side: OuterSide::Bottom,
            side_index: 4,
            channel_index: 2,
            channel_count: 5,
        },
    )]);

    assert!(outer_lane_channels_match(&baseline, &side_only));
    assert!(!outer_lane_channels_match(&baseline, &different_channel));
}

#[test]
fn channel_match_requires_the_same_edges_and_channel_counts() {
    let lane = |channel_index, channel_count| OuterLane {
        side: OuterSide::Top,
        side_index: 0,
        channel_index,
        channel_count,
    };
    let left = BTreeMap::from([(1, lane(0, 2)), (2, lane(1, 2))]);
    let missing = BTreeMap::from([(1, lane(0, 2))]);
    let renamed = BTreeMap::from([(1, lane(0, 2)), (3, lane(1, 2))]);
    let recounted = BTreeMap::from([(1, lane(0, 3)), (2, lane(1, 2))]);
    assert!(outer_lane_channels_match(&left, &left));
    assert!(!outer_lane_channels_match(&left, &missing));
    assert!(!outer_lane_channels_match(&left, &renamed));
    assert!(!outer_lane_channels_match(&left, &recounted));
    assert!(outer_lane_channels_match(&BTreeMap::new(), &BTreeMap::new()));
}
