use blue_noise::generator::{blue_noise, blue_noise_iter, in_annulus, offset_point, Step};
use blue_noise::grid::{dst_sqr, GridError};
use rand::Rng;

fn sanity_nd(dimension: usize, minr: u32, maxr: u32) {
    let mut rng = rand::thread_rng();
    let radius: u32 = 3;
    let mut dimensions: Vec<u32> = Vec::new();
    for _ in 0..dimension {
        dimensions.push(rng.gen_range(minr..maxr));
    }
    assert_eq!(dimensions.len(), dimension);
    let samples = blue_noise(dimensions, radius, 30).unwrap();
    println!("there are {} samples.", samples.len());
    let r2 = (radius * radius) as u128;
    for s1 in samples.iter() {
        let mut mindst = u128::MAX;
        for s2 in samples.iter() {
            if s1 == s2 {
                continue;
            }
            let dst = dst_sqr(s1, s2);
            if dst < mindst {
                mindst = dst;
            }
        }
        assert!(mindst >= r2); // distance constraint violated
        assert!(mindst < 4 * r2); // not nicely spread in the room
    }
}

#[test]
fn sanity_3d() {
    sanity_nd(3, 15, 25);
}

#[test]
fn sanity_2d_random_extents() {
    sanity_nd(2, 15, 25);
}

fn get_image(radius: u32, size: usize) -> Vec<Vec<bool>> {
    let samples = blue_noise(vec![size as u32, size as u32], radius, 30).unwrap();
    let mut image = vec![vec![false; size]; size];
    for s in samples {
        image[s[1] as usize][s[0] as usize] = true;
    }
    image
}

#[test]
fn sanity_2d() {
    let size: isize = 128;
    let radius: isize = 8;
    let image = get_image(radius as u32, size as usize);
    for y in 0..size {
        for x in 0..size {
            if image[y as usize][x as usize] {
                for dy in 0..radius {
                    for dx in 0..radius {
                        if dx == 0 && dy == 0 {
                            continue;
                        }
                        if let Some(line) = image.get((y + dy) as usize) {
                            if let Some(&true) = line.get((x + dx) as usize) {
                                assert!(dx * dx + dy * dy >= (radius - 1) * (radius - 1));
                            }
                        }
                    }
                }
            }
        }
    }
}

#[test]
fn k_abort_zero_gives_one_point() {
    for (dims, m) in [(vec![1000u32, 1000], 1u32), (vec![5], 100), (vec![30, 30, 30], 2)] {
        let samples = blue_noise(dims.clone(), m, 0).unwrap();
        assert_eq!(samples.len(), 1);
        for (x, e) in samples[0].iter().zip(dims.iter()) {
            assert!(0 <= *x && *x < *e as i64);
        }
    }
}

#[test]
fn generated_points_in_domain_and_near_a_parent() {
    let dims = vec![40u32, 30];
    let m: u32 = 4;
    let samples = blue_noise(dims.clone(), m, 30).unwrap();
    assert!(samples.len() > 1);
    let m2 = (m * m) as u128;
    for (j, p) in samples.iter().enumerate() {
        for (x, e) in p.iter().zip(dims.iter()) {
            assert!(0 <= *x && *x < *e as i64);
        }
        if j > 0 {
            assert!(samples[..j].iter().any(|q| dst_sqr(p, q) < 4 * m2));
        }
        for q in samples[..j].iter() {
            assert!(dst_sqr(p, q) >= m2);
        }
    }
}

#[test]
fn domain_smaller_than_distance_gives_one_point() {
    let samples = blue_noise(vec![3, 3], 10, 30).unwrap();
    assert_eq!(samples.len(), 1);
}

#[test]
fn generation_errors() {
    assert_eq!(blue_noise(vec![10, 10], 0, 30).unwrap_err(), GridError::NonPositiveDistance);
    assert_eq!(blue_noise(vec![], 3, 30).unwrap_err(), GridError::EmptyDomain);
    assert_eq!(blue_noise(vec![0, 10], 3, 30).unwrap_err(), GridError::DegenerateExtent);
    assert!(blue_noise_iter(vec![10, 10], 0, 30).is_err());
}

#[test]
fn iterator_yields_lazily_then_ends() {
    let mut it = blue_noise_iter(vec![50, 50], 5, 30).unwrap();
    let first = it.next().unwrap();
    let second = it.next().unwrap();
    assert!(dst_sqr(&first, &second) >= 25);
    assert!(dst_sqr(&first, &second) < 100);
    let mut count = 2;
    while it.next().is_some() {
        count += 1;
    }
    assert!(count > 2);
    assert!(it.next().is_none());
    assert!(it.next().is_none());
}

#[test]
fn first_points_are_drawn_at_random() {
    let mut firsts = Vec::new();
    for _ in 0..8 {
        let mut it = blue_noise_iter(vec![1000, 1000], 10, 30).unwrap();
        firsts.push(it.next().unwrap());
    }
    assert!(firsts.iter().any(|p| p != &firsts[0]));
    assert!(firsts.iter().any(|p| p != &vec![0, 0]));
}

#[test]
fn annulus_membership() {
    assert!(in_annulus(&vec![3, 4], 5));
    assert!(in_annulus(&vec![0, -9], 5));
    assert!(!in_annulus(&vec![0, 10], 5));
    assert!(!in_annulus(&vec![2, 2], 5));
    assert!(!in_annulus(&vec![1, 1], 0));
}

#[test]
fn offset_moves_point() {
    assert_eq!(offset_point(&vec![10, 20, 30], &vec![-3, 0, 5]), vec![7, 20, 35]);
}

#[test]
fn offered_offsets_follow_the_rules() {
    let mut it = blue_noise_iter(vec![100, 100], 5, 30).unwrap();
    let first = it.next().unwrap();
    // length 5: in the shell [5, 10)
    let moved = vec![first[0] + 3, first[1] + 4];
    let fits = moved.iter().all(|x| 0 <= *x && *x < 100);
    let r = it.try_offset(1, &vec![3, 4]);
    if fits {
        assert_eq!(r, Some(moved.clone()));
        // the same point a second time is too close to itself
        assert_eq!(it.try_offset(1, &vec![3, 4]), None);
    } else {
        assert_eq!(r, None);
    }
    // too short and too long offsets are refused whatever the point
    assert_eq!(it.try_offset(1, &vec![1, 1]), None);
    assert_eq!(it.try_offset(1, &vec![10, 0]), None);
    assert_eq!(it.try_offset(1, &vec![0, -10]), None);
}

#[test]
fn offered_offset_outside_domain_refused() {
    let mut it = blue_noise_iter(vec![10], 3, 30).unwrap();
    let first = it.next().unwrap();
    // a step of 5 lies in the shell [3, 6); it is taken only inside [0, 10)
    let up = it.try_offset(1, &vec![5]);
    if first[0] + 5 >= 10 {
        assert_eq!(up, None);
    } else {
        assert_eq!(up, Some(vec![first[0] + 5]));
    }
    // a step of 9 is too long from anywhere
    assert_eq!(it.try_offset(1, &vec![-9]), None);
}

#[test]
fn steps_without_offsets_drop_then_end() {
    let mut it = blue_noise_iter(vec![10], 3, 1).unwrap();
    assert!(it.next().is_some());
    // the one attempt of the seed is spent
    assert!(matches!(it.step(None), Step::Retry));
    // the seed has used up its attempts and is dropped
    assert!(matches!(it.step(None), Step::Retry));
    // the round is over and the next one is empty
    assert!(matches!(it.step(None), Step::End));
    assert!(matches!(it.step(None), Step::End));
    assert!(it.next().is_none());
}

#[test]
fn step_emits_accepted_offset() {
    let mut it = blue_noise_iter(vec![100, 100], 5, 30).unwrap();
    let first = it.next().unwrap();
    let dx: i64 = if first[0] < 50 { 5 } else { -5 };
    match it.step(Some(vec![dx, 0])) {
        Step::Emit(p) => assert_eq!(p, vec![first[0] + dx, first[1]]),
        _ => panic!("offset of the minimum length inside the domain must be taken"),
    }
    // the next round starts again from the seed; the same offset now lands
    // on the sample just taken
    assert!(matches!(it.step(Some(vec![dx, 0])), Step::Retry));
    // too short an offset is a failed attempt
    assert!(matches!(it.step(Some(vec![1, 0])), Step::Retry));
}

#[test]
fn k_abort_zero_iterator_ends_after_seed() {
    let mut it = blue_noise_iter(vec![50, 50], 2, 0).unwrap();
    assert!(it.next().is_some());
    assert!(it.next().is_none());
    assert!(it.next().is_none());
}

#[test]
fn placed_first_point_is_reproducible() {
    let mut it = blue_noise_iter(vec![20, 20], 4, 30).unwrap();
    assert!(!it.place_first(vec![20, 3]));
    assert!(!it.place_first(vec![-1, 3]));
    assert!(it.place_first(vec![10, 10]));
    // the seed spawns first: an offset of length 5 from it is taken
    match it.step(Some(vec![3, 4])) {
        Step::Emit(p) => assert_eq!(p, vec![13, 14]),
        _ => panic!("a point 5 away from the seed, inside the domain, must be taken"),
    }
}

#[test]
fn placed_runs_repeat_exactly() {
    let offsets = [vec![4, 0], vec![0, 4], vec![-4, 0], vec![0, -4], vec![5, 5], vec![1, 1]];
    let run = || {
        let mut it = blue_noise_iter(vec![30, 30], 4, 3).unwrap();
        assert!(it.place_first(vec![15, 15]));
        let mut out = Vec::new();
        for i in 0..200 {
            match it.step(Some(offsets[i % offsets.len()].clone())) {
                Step::Emit(p) => out.push(p),
                Step::Retry => {}
                Step::End => break,
            }
        }
        out
    };
    let first = run();
    assert!(first.len() >= 4);
    assert_eq!(first, run());
}
