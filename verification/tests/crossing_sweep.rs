use std::collections::{BTreeMap, BTreeSet};

use schemweave::crossing_sweep::{crossing_sweep, RankedSegment};
use schemweave::graph::Endpoint;

fn endpoint(node: u32) -> Endpoint {
    Endpoint { node, port: 0 }
}

/// A piece with its coordinates as given, and whether it runs horizontally.
#[derive(Clone, Copy)]
struct Piece {
    net: u32,
    source: u32,
    target: u32,
    horizontal: bool,
    fixed: f64,
    start: f64,
    end: f64,
}

fn ranks_of(pieces: &[Piece]) -> Vec<f64> {
    let mut values: Vec<f64> = pieces.iter().flat_map(|piece| [piece.fixed, piece.start, piece.end]).collect();
    values.sort_by(f64::total_cmp);
    values.dedup_by(|left, right| left.total_cmp(right).is_eq());
    values
}

fn ranked(piece: &Piece, ranks: &[f64]) -> RankedSegment {
    let rank = |value: f64| ranks.iter().position(|&candidate| candidate.total_cmp(&value).is_eq()).unwrap();
    RankedSegment {
        net: piece.net,
        source: endpoint(piece.source),
        target: endpoint(piece.target),
        fixed: rank(piece.fixed),
        start: rank(piece.start),
        end: rank(piece.end),
    }
}

fn oracle_fixture() -> Vec<Piece> {
    let piece = |net, source, target, horizontal, fixed, start, end| Piece { net, source, target, horizontal, fixed, start, end };
    vec![
        piece(1, 1, 2, true, 5.0, 0.0, 10.0),
        piece(2, 50, 4, true, 7.0, 0.0, 10.0),
        piece(3, 5, 6, true, 9.0, 0.0, 10.0),
        piece(4, 7, 8, true, 5.0, 5.0, 15.0),
        piece(10, 9, 10, false, 5.0, 0.0, 10.0),
        piece(1, 11, 12, false, 6.0, 0.0, 10.0),
        piece(20, 50, 13, false, 7.0, 0.0, 10.0),
        piece(30, 14, 15, false, 10.0, 0.0, 10.0),
        piece(31, 16, 17, false, 8.0, 5.0, 9.0),
    ]
}

fn shared_set() -> BTreeSet<(u32, u32)> {
    BTreeSet::from([(50, 0)])
}

fn oracle(horizontal: &[Piece], vertical: &[Piece], shared: &BTreeSet<(u32, u32)>) -> BTreeMap<u32, usize> {
    let mut counts = BTreeMap::<u32, usize>::new();
    for line in vertical {
        for crossing in horizontal {
            let shares_endpoint = [line.source, line.target].into_iter().any(|node| {
                shared.contains(&(node, 0)) && (crossing.source == node || crossing.target == node)
            });
            if line.fixed > crossing.start
                && line.fixed < crossing.end
                && crossing.fixed > line.start
                && crossing.fixed < line.end
                && line.net != crossing.net
                && !shares_endpoint
            {
                *counts.entry(line.net).or_default() += 1;
            }
        }
    }
    counts
}

fn by_net(vertical: &[Piece], counts: &[usize]) -> BTreeMap<u32, usize> {
    let mut totals = BTreeMap::<u32, usize>::new();
    for (line, &count) in vertical.iter().zip(counts) {
        if count != 0 {
            *totals.entry(line.net).or_default() += count;
        }
    }
    totals
}

#[test]
fn shared_crossing_sweep_matches_an_independent_pairwise_oracle() {
    let pieces = oracle_fixture();
    let ranks = ranks_of(&pieces);
    let shared = shared_set();
    for transpose in [false, true] {
        let horizontal: Vec<Piece> = pieces.iter().copied().filter(|piece| piece.horizontal != transpose).collect();
        let vertical: Vec<Piece> = pieces.iter().copied().filter(|piece| piece.horizontal == transpose).collect();
        let expected = oracle(&horizontal, &vertical, &shared);
        let ranked_horizontal: Vec<RankedSegment> = horizontal.iter().map(|piece| ranked(piece, &ranks)).collect();
        let ranked_vertical: Vec<RankedSegment> = vertical.iter().map(|piece| ranked(piece, &ranks)).collect();
        let (crossings, counts) = crossing_sweep(&shared, &ranked_horizontal, &ranked_vertical, ranks.len());
        assert_eq!(crossings, expected.values().sum::<usize>());
        assert_eq!(by_net(&vertical, &counts), expected);
    }

    let horizontal: Vec<Piece> = pieces[..4].to_vec();
    let vertical: Vec<Piece> = pieces[4..].to_vec();
    let profile_indices: [&[usize]; 3] = [&[0, 1, 2, 3, 4], &[0, 1, 2, 3], &[0, 3]];
    let mut tagged = Vec::new();
    let mut keys = Vec::new();
    for (profile, indices) in profile_indices.iter().enumerate() {
        for &index in indices.iter() {
            tagged.push(ranked(&vertical[index], &ranks));
            keys.push(((profile as u64) << 32) | u64::from(vertical[index].net));
        }
    }
    let ranked_horizontal: Vec<RankedSegment> = horizontal.iter().map(|piece| ranked(piece, &ranks)).collect();
    let (_, counts) = crossing_sweep(&shared, &ranked_horizontal, &tagged, ranks.len());
    let mut actual_profiles = BTreeMap::<u64, usize>::new();
    for (&key, &count) in keys.iter().zip(&counts) {
        if count != 0 {
            *actual_profiles.entry(key).or_default() += count;
        }
    }
    let mut expected_profiles = BTreeMap::new();
    for (profile, indices) in profile_indices.iter().enumerate() {
        let lines: Vec<Piece> = indices.iter().map(|&index| vertical[index]).collect();
        for (net, crossings) in oracle(&horizontal, &lines, &shared) {
            expected_profiles.insert(((profile as u64) << 32) | u64::from(net), crossings);
        }
    }
    assert_eq!(actual_profiles, expected_profiles);
}

fn segment(net: u32, source: u32, target: u32, fixed: usize, start: usize, end: usize) -> RankedSegment {
    RankedSegment { net, source: endpoint(source), target: endpoint(target), fixed, start, end }
}

#[test]
fn crossing_sweep_counts_each_vertical_exactly() {
    let pieces = oracle_fixture();
    let ranks = ranks_of(&pieces);
    let horizontal: Vec<RankedSegment> = pieces[..4].iter().map(|piece| ranked(piece, &ranks)).collect();
    let vertical: Vec<RankedSegment> = pieces[4..].iter().map(|piece| ranked(piece, &ranks)).collect();
    let (total, counts) = crossing_sweep(&shared_set(), &horizontal, &vertical, ranks.len());
    assert_eq!(counts, vec![3, 3, 3, 1, 1]);
    assert_eq!(total, 11);
}

#[test]
fn crossing_sweep_needs_strictly_inner_contact() {
    let horizontal = vec![segment(1, 1, 2, 2, 0, 4)];
    let vertical = vec![
        segment(2, 3, 4, 2, 0, 4),
        segment(3, 5, 6, 0, 0, 4),
        segment(4, 7, 8, 4, 0, 4),
        segment(5, 9, 10, 2, 2, 4),
        segment(6, 11, 12, 2, 0, 2),
    ];
    let (total, counts) = crossing_sweep(&BTreeSet::new(), &horizontal, &vertical, 5);
    assert_eq!(counts, vec![1, 0, 0, 0, 0]);
    assert_eq!(total, 1);
}

#[test]
fn crossing_sweep_leaves_out_related_pieces() {
    let horizontal = vec![segment(1, 1, 2, 2, 0, 4), segment(2, 7, 8, 2, 0, 4), segment(3, 9, 10, 2, 0, 4)];
    let vertical = vec![segment(1, 3, 4, 2, 0, 4), segment(5, 7, 11, 2, 0, 4), segment(6, 12, 10, 2, 0, 4)];
    let shared = BTreeSet::from([(7, 0)]);
    let (total, counts) = crossing_sweep(&shared, &horizontal, &vertical, 5);
    assert_eq!(counts, vec![2, 2, 3]);
    assert_eq!(total, 7);
}

#[test]
fn crossing_sweep_ignores_pieces_without_span() {
    let horizontal = vec![segment(1, 1, 2, 2, 3, 3), segment(2, 3, 4, 2, 4, 1)];
    let vertical = vec![segment(3, 5, 6, 3, 0, 4), segment(4, 7, 8, 4, 0, 4), segment(5, 9, 10, 2, 3, 1)];
    let (total, counts) = crossing_sweep(&BTreeSet::new(), &horizontal, &vertical, 5);
    assert_eq!(counts, vec![0, 0, 0]);
    assert_eq!(total, 0);
}

#[test]
fn crossing_sweep_with_no_pieces_counts_nothing() {
    let (total, counts) = crossing_sweep(&BTreeSet::new(), &[], &[], 0);
    assert_eq!(total, 0);
    assert!(counts.is_empty());
}

#[test]
fn crossing_total_is_the_same_in_both_orientations() {
    let pieces = oracle_fixture();
    let ranks = ranks_of(&pieces);
    let first: Vec<RankedSegment> = pieces[..4].iter().map(|piece| ranked(piece, &ranks)).collect();
    let second: Vec<RankedSegment> = pieces[4..].iter().map(|piece| ranked(piece, &ranks)).collect();
    let (forward, _) = crossing_sweep(&shared_set(), &first, &second, ranks.len());
    let (backward, _) = crossing_sweep(&shared_set(), &second, &first, ranks.len());
    assert_eq!(forward, 11);
    assert_eq!(backward, forward);
}
