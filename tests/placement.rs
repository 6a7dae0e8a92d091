use sweepster::grid::neighbors_of;
use sweepster::placement::{choose_sites, take_drawn};

#[test]
fn take_drawn_picks_by_remainder() {
    let mut pool = vec![(0, 0), (0, 1), (0, 2), (1, 0)];
    let q = take_drawn(&mut pool, 9);
    assert_eq!(q, (0, 1));
    assert_eq!(pool, vec![(0, 0), (1, 0), (0, 2)]);
    let q = take_drawn(&mut pool, 2);
    assert_eq!(q, (0, 2));
    assert_eq!(pool, vec![(0, 0), (1, 0)]);
    let q = take_drawn(&mut pool, usize::MAX);
    assert_eq!(q, (1, 0));
    assert_eq!(pool, vec![(0, 0)]);
}

#[test]
fn chosen_sites_avoid_the_window() {
    for _ in 0..50 {
        let sites = choose_sites(6, 7, (0, 6), 30);
        assert_eq!(sites.len(), 30);
        let mut sorted = sites.clone();
        sorted.sort();
        sorted.dedup();
        assert_eq!(sorted.len(), 30);
        for &(r, c) in &sites {
            assert!(r < 6 && c < 7);
            assert!(!(r <= 1 && c >= 5));
        }
    }
}

#[test]
fn chosen_sites_can_fill_the_grid() {
    let mut sites = choose_sites(4, 4, (1, 1), 7);
    sites.sort();
    assert_eq!(sites, vec![(0, 3), (1, 3), (2, 3), (3, 0), (3, 1), (3, 2), (3, 3)]);
    assert!(choose_sites(3, 3, (1, 1), 0).is_empty());
}

#[test]
fn neighbors_in_fixed_order() {
    assert_eq!(
        neighbors_of(3, 3, (1, 1)),
        vec![(1, 0), (0, 0), (2, 0), (0, 1), (2, 1), (1, 2), (0, 2), (2, 2)]
    );
    assert_eq!(neighbors_of(3, 3, (0, 0)), vec![(1, 0), (0, 1), (1, 1)]);
    assert!(neighbors_of(1, 1, (0, 0)).is_empty());
}
