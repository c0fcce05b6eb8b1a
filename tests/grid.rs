use blue_noise::grid::{dst_sqr, BackgroundGrid, GridError};
use blue_noise::radix::advance;

#[test]
fn grid_corners() {
    let mut grid = BackgroundGrid::new(vec![35, 9], 4).unwrap();
    let mut samples: Vec<Vec<i64>> = Vec::new();
    assert_eq!(grid.cell_count().len(), 2);
    assert_eq!(grid.insert(vec![0, 9], &mut samples), Err(()));
    assert_eq!(samples.len(), 0);
    assert_eq!(grid.insert(vec![0, 0], &mut samples), Ok(1));
    assert_eq!(samples.len(), 1);
    assert_eq!(grid.insert(vec![34, 0], &mut samples), Ok(2));
    assert_eq!(samples.len(), 2);
    assert_eq!(grid.insert(vec![0, 8], &mut samples), Ok(3));
    assert_eq!(samples.len(), 3);
    assert_eq!(grid.insert(vec![34, 8], &mut samples), Ok(4));
    assert_eq!(samples.len(), 4);
}

#[test]
fn corners_pairwise_apart() {
    let mut grid = BackgroundGrid::new(vec![35, 9], 4).unwrap();
    let mut samples: Vec<Vec<i64>> = Vec::new();
    for p in [vec![0, 0], vec![34, 0], vec![0, 8], vec![34, 8]] {
        assert!(grid.insert(p, &mut samples).is_ok());
    }
    for i in 0..samples.len() {
        for j in 0..samples.len() {
            if i != j {
                assert!(dst_sqr(&samples[i], &samples[j]) >= 16);
            }
        }
    }
}

#[test]
fn cell_counts_follow_cell_size() {
    // min distance 4 in 2 axes: cells of edge 4 / sqrt(2), so
    // ceil(35 * sqrt(2) / 4) = 13 and ceil(9 * sqrt(2) / 4) = 4
    let grid = BackgroundGrid::new(vec![35, 9], 4).unwrap();
    assert_eq!(grid.cell_count(), &vec![13, 4]);
    // edge 5 / sqrt(3): ceil(10 * sqrt(3) / 5) = 4
    let grid = BackgroundGrid::new(vec![10, 10, 10], 5).unwrap();
    assert_eq!(grid.cell_count(), &vec![4, 4, 4]);
    // one axis: edge 3, ceil(10 / 3) = 4; an exact fit gives no extra cell
    let grid = BackgroundGrid::new(vec![10], 3).unwrap();
    assert_eq!(grid.cell_count(), &vec![4]);
    let grid = BackgroundGrid::new(vec![9], 3).unwrap();
    assert_eq!(grid.cell_count(), &vec![3]);
}

#[test]
fn reinsert_same_point_rejected() {
    let mut grid = BackgroundGrid::new(vec![20, 20, 20], 3).unwrap();
    let mut samples: Vec<Vec<i64>> = Vec::new();
    assert_eq!(grid.insert(vec![5, 6, 7], &mut samples), Ok(1));
    assert_eq!(grid.insert(vec![5, 6, 7], &mut samples), Err(()));
    assert_eq!(samples, vec![vec![5, 6, 7]]);
}

#[test]
fn too_close_rejected_far_enough_accepted() {
    let mut grid = BackgroundGrid::new(vec![100, 100], 10).unwrap();
    let mut samples: Vec<Vec<i64>> = Vec::new();
    assert_eq!(grid.insert(vec![50, 50], &mut samples), Ok(1));
    // 6^2 + 8^2 = 100: exactly the minimum distance
    assert_eq!(grid.insert(vec![56, 58], &mut samples), Ok(2));
    // 9^2 + 4^2 = 97 < 100
    assert_eq!(grid.insert(vec![41, 46], &mut samples), Err(()));
    // far away, in a cell well outside the window
    assert_eq!(grid.insert(vec![0, 99], &mut samples), Ok(3));
    assert_eq!(samples.len(), 3);
}

#[test]
fn boundary_coordinates() {
    let mut grid = BackgroundGrid::new(vec![10, 7], 2).unwrap();
    let mut samples: Vec<Vec<i64>> = Vec::new();
    assert_eq!(grid.insert(vec![10, 3], &mut samples), Err(()));
    assert_eq!(grid.insert(vec![3, 7], &mut samples), Err(()));
    assert_eq!(grid.insert(vec![-1, 3], &mut samples), Err(()));
    assert_eq!(grid.insert(vec![0, 3], &mut samples), Ok(1));
    assert_eq!(grid.insert(vec![5, 0], &mut samples), Ok(2));
    assert_eq!(grid.insert(vec![9, 6], &mut samples), Ok(3));
}

#[test]
fn construction_errors() {
    assert_eq!(BackgroundGrid::new(vec![10, 10], 0).unwrap_err(), GridError::NonPositiveDistance);
    assert_eq!(BackgroundGrid::new(vec![], 3).unwrap_err(), GridError::EmptyDomain);
    assert_eq!(BackgroundGrid::new(vec![10, 0], 3).unwrap_err(), GridError::DegenerateExtent);
    let huge = vec![u32::MAX; 8];
    assert_eq!(BackgroundGrid::new(huge, 1).unwrap_err(), GridError::TooLarge);
    assert!(BackgroundGrid::new(vec![1], 1).is_ok());
}

#[test]
fn squared_distance_exact() {
    assert_eq!(dst_sqr(&vec![0, 0, 0], &vec![1, 2, 3]), 14);
    assert_eq!(dst_sqr(&vec![7], &vec![7]), 0);
    let far = u32::MAX as i64;
    assert_eq!(dst_sqr(&vec![0, far], &vec![far, 0]), 2 * (far as u128) * (far as u128));
}

#[test]
fn odometer_walks_box() {
    let lo = vec![1, 5];
    let hi = vec![2, 7];
    let mut at = lo.clone();
    let mut seen = vec![at.clone()];
    while advance(&mut at, &lo, &hi) {
        seen.push(at.clone());
    }
    assert_eq!(
        seen,
        vec![vec![1, 5], vec![2, 5], vec![1, 6], vec![2, 6], vec![1, 7], vec![2, 7]]
    );
    assert_eq!(at, lo);
}

#[test]
fn squared_distance_negative_coordinates() {
    assert_eq!(dst_sqr(&vec![-3, 0], &vec![0, 4]), 25);
    let far = u32::MAX as i64;
    assert_eq!(dst_sqr(&vec![-far], &vec![far]), 4 * (far as u128) * (far as u128));
}
