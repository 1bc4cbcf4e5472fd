use sith::branches::{branches, Branch};

#[test]
fn short_jumps_take_the_inner_lanes() {
    let jumps = vec![(0, 10, false), (2, 4, true), (5, 3, false), (20, 22, false)];
    let got = branches(&jumps);
    assert_eq!(
        got,
        vec![
            Branch { from: 2, to: 4, lane: 0, conditional: true },
            Branch { from: 5, to: 3, lane: 1, conditional: false },
            Branch { from: 20, to: 22, lane: 0, conditional: false },
            Branch { from: 0, to: 10, lane: 2, conditional: false },
        ]
    );
}

#[test]
fn deep_nesting_shares_the_outer_lane() {
    let jumps: Vec<(usize, usize, bool)> = (0..9).map(|i| (10 - i, 10 + i + 1, false)).collect();
    let got = branches(&jumps);
    let lanes: Vec<usize> = got.iter().map(|b| b.lane).collect();
    assert_eq!(lanes, vec![0, 1, 2, 3, 4, 5, 5, 5, 5]);
}

#[test]
fn jumps_in_one_inner_lane_never_overlap() {
    let jumps: Vec<(usize, usize, bool)> =
        vec![(0, 3, false), (1, 2, false), (4, 9, true), (8, 5, false), (2, 7, false), (10, 12, false)];
    let got = branches(&jumps);
    for (i, a) in got.iter().enumerate() {
        for b in got.iter().skip(i + 1) {
            if a.lane == b.lane && a.lane < 5 {
                let (alo, ahi) = (a.from.min(a.to), a.from.max(a.to));
                let (blo, bhi) = (b.from.min(b.to), b.from.max(b.to));
                assert!(ahi < blo || bhi < alo);
            }
        }
    }
}
