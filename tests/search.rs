use knight_mov::{
    best_displacement, check_for_inverses, get_min_displacement, get_min_rect_area, min_area_among,
    move_to_complex, net_displacement, path_area, ComplexBox, DispAndMoves, GaussInt,
};

const PAIRS: [[u8; 2]; 4] = [[0, 2], [1, 3], [4, 6], [5, 7]];

fn holds_pair(s: &[u8]) -> bool {
    PAIRS.iter().any(|p| s.contains(&p[0]) && s.contains(&p[1]))
}

fn lam(a: i32, b: i32, moves: Vec<u8>) -> DispAndMoves {
    let d = net_displacement(&moves, a, b);
    DispAndMoves::new(a, b, d, moves)
}

#[test]
fn move_vectors_of_two_three() {
    let expected = [(2, 3), (-3, 2), (-2, -3), (3, -2), (2, -3), (3, 2), (-2, 3), (-3, -2)];
    for (m, &(re, im)) in expected.iter().enumerate() {
        assert_eq!(move_to_complex(m as u8, 2, 3), GaussInt::new(re, im));
    }
}

#[test]
fn inverse_pairs_cancel() {
    for &(a, b) in &[(1, 2), (13, 10), (4, 5), (0, 7), (-3, 9)] {
        for p in PAIRS {
            let u = move_to_complex(p[0], a, b);
            let v = move_to_complex(p[1], a, b);
            assert_eq!((u.re + v.re, u.im + v.im), (0, 0));
        }
    }
}

#[test]
fn inverse_filter_matches_pairs_on_short_sequences() {
    for x in 0..8u8 {
        for y in 0..8u8 {
            assert_eq!(check_for_inverses(&[x, y]), holds_pair(&[x, y]));
            for z in 0..8u8 {
                assert_eq!(check_for_inverses(&[x, y, z]), holds_pair(&[x, y, z]));
            }
        }
    }
    assert!(check_for_inverses(&[5, 1, 1, 7]));
    assert!(!check_for_inverses(&[0, 1, 4, 7]));
    assert!(!check_for_inverses(&[]));
}

#[test]
fn net_displacement_sums_moves() {
    assert_eq!(net_displacement(&[0, 1, 4], 2, 3), GaussInt::new(1, 2));
    assert_eq!(net_displacement(&[], 2, 3), GaussInt::new(0, 0));
}

#[test]
fn thirteen_ten_four_steps() {
    let d = get_min_displacement(13, 10, 4).unwrap();
    assert_eq!(d.a, 13);
    assert_eq!(d.b, 10);
    assert_eq!(d.displacement, GaussInt::new(6, 0));
    assert_eq!(d.moves, vec![0, 1, 4, 7]);
    let (order, area) = get_min_rect_area(&d, 13, 10).unwrap();
    assert_eq!(order, vec![0, 7, 1, 4]);
    assert_eq!(area, 260);
}

#[test]
fn four_five_five_steps() {
    let d = get_min_displacement(4, 5, 5).unwrap();
    assert_eq!(d.displacement, GaussInt::new(3, -2));
    assert_eq!(d.moves, vec![0, 0, 3, 7, 7]);
    let (order, area) = get_min_rect_area(&d, 4, 5).unwrap();
    assert_eq!(order, vec![0, 7, 0, 7, 3]);
    assert_eq!(area, 48);
}

#[test]
fn small_searches() {
    let d = get_min_displacement(1, 2, 1).unwrap();
    assert_eq!((d.displacement, d.moves), (GaussInt::new(1, 2), vec![0]));
    let d = get_min_displacement(1, 2, 2).unwrap();
    assert_eq!((d.displacement, d.moves), (GaussInt::new(-1, 1), vec![0, 7]));
    let d = get_min_displacement(2, 1, 3).unwrap();
    assert_eq!((d.displacement, d.moves), (GaussInt::new(0, 1), vec![0, 1, 7]));
}

#[test]
fn no_steps_no_candidate() {
    assert!(get_min_displacement(13, 10, 0).is_none());
}

#[test]
fn degenerate_leaper_no_candidate() {
    assert!(get_min_displacement(0, 0, 2).is_none());
}

#[test]
fn search_is_repeatable() {
    let d1 = get_min_displacement(4, 5, 4).unwrap();
    let d2 = get_min_displacement(4, 5, 4).unwrap();
    assert_eq!(d1.displacement, d2.displacement);
    assert_eq!(d1.moves, d2.moves);
    assert_eq!((d1.a, d1.b), (d2.a, d2.b));
}

#[test]
fn answer_is_a_candidate() {
    for &(a, b, steps) in &[(13, 10, 3), (4, 5, 3), (1, 2, 4), (3, 0, 2)] {
        let d = get_min_displacement(a, b, steps).unwrap();
        assert_eq!(d.moves.len(), steps);
        assert!(!check_for_inverses(&d.moves));
        assert_ne!(d.displacement, GaussInt::new(0, 0));
        assert_eq!(net_displacement(&d.moves, a, b), d.displacement);
    }
}

#[test]
fn best_displacement_takes_first_of_least() {
    let list = vec![vec![0, 2], vec![0, 0], vec![0, 7], vec![1, 4]];
    let d = best_displacement(&list, 1, 2).unwrap();
    assert_eq!(d.moves, vec![0, 7]);
    assert_eq!(d.displacement, GaussInt::new(-1, 1));
    assert!(best_displacement(&vec![vec![0, 2], vec![]], 1, 2).is_none());
}

#[test]
fn single_move_area_is_product_of_sides() {
    for &(a, b) in &[(2, 3), (13, 10), (0, 4), (-1, 5)] {
        for m in 0..8u8 {
            let v = move_to_complex(m, a, b);
            let direct = (v.re.unsigned_abs() as u64) * (v.im.unsigned_abs() as u64);
            assert_eq!(path_area(&[m], a, b), direct);
        }
    }
    assert_eq!(path_area(&[0], 2, 3), 6);
}

#[test]
fn path_area_of_longer_walks() {
    assert_eq!(path_area(&[0, 1, 4], 2, 3), 15);
    assert_eq!(path_area(&[0, 1, 4, 7], 13, 10), 368);
    assert_eq!(path_area(&[], 2, 3), 0);
}

#[test]
fn reordering_keeps_net_and_never_grows_area() {
    let l = lam(2, 3, vec![0, 1, 4]);
    let (order, area) = get_min_rect_area(&l, 2, 3).unwrap();
    assert_eq!(order, vec![0, 4, 1]);
    assert_eq!(area, 12);
    assert!(area <= path_area(&l.moves, 2, 3));
    assert_eq!(net_displacement(&order, 2, 3), l.displacement);
    let mut sorted = order.clone();
    sorted.sort();
    assert_eq!(sorted, vec![0, 1, 4]);
}

#[test]
fn area_search_on_empty_moves_reports_nothing() {
    let l = lam(2, 3, vec![]);
    assert!(get_min_rect_area(&l, 2, 3).is_none());
}

#[test]
fn min_area_among_takes_first_of_least() {
    let list = vec![vec![0, 1, 4], vec![0, 4, 1], vec![4, 0, 1]];
    let (order, area) = min_area_among(&list, 2, 3).unwrap();
    assert_eq!(order, vec![0, 4, 1]);
    assert_eq!(area, 12);
    assert!(min_area_among(&vec![], 2, 3).is_none());
}

#[test]
fn box_new_and_area() {
    let b = ComplexBox::new(4, -2, -1, 3);
    assert_eq!((b.north, b.west, b.south, b.east), (4, -2, -1, 3));
    assert_eq!(b.get_area(), 25);
    assert_eq!(ComplexBox::at_origin().get_area(), 0);
}

#[test]
fn box_update_widens() {
    let mut b = ComplexBox::at_origin();
    b.update_from_complex(GaussInt::new(2, 3));
    assert_eq!(b, ComplexBox::new(3, 0, 0, 2));
    b.update_from_complex(GaussInt::new(-1, 1));
    assert_eq!(b, ComplexBox::new(3, -1, 0, 2));
    b.update_from_complex(GaussInt::new(0, -5));
    assert_eq!(b, ComplexBox::new(3, -1, -5, 2));
    assert_eq!(b.get_area(), 24);
}
