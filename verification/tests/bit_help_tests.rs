use chess_engine::bit_help::{
    index, index_to_coord, index_to_place, coord_to_index, iter_index, iter_place, place_to_coord,
    ray, ray_until_blocker, Dir, X, _ray,
};

#[test]
fn bit_help_test_stuff() {
    let mut v = vec![true, false];
    v.sort();
    println!("{:?}", v);
}

#[test]
fn test_place() {
    for i in 0..64 {
        assert_eq!(index_to_place(i), 2_u64.pow(i as u32));
    }
}

#[test]
fn test_bit_shift() {
    assert_eq!(8_u64 >> 1, 4)
}

#[test]
fn test_reduce() {
    let v = vec![1, 2, 3];
    v.iter().cloned().reduce(|a, b| a | b).unwrap();
    assert_eq!(v, vec![1, 2, 3])
}

#[test]
fn stuff() {
    let mut y = X { thing: 2 };
    assert_eq!(y.thing, 2);
    *y.get_mut() |= 4;
    assert_eq!(y.thing, 6);
}

#[test]
fn coordinates_round_trip() {
    for i in 0..64usize {
        let (x, y) = index_to_coord(i);
        assert_eq!((x, y), ((i % 8) as i32, (i / 8) as i32));
        assert_eq!(coord_to_index((x, y)), i);
        assert_eq!(index(index_to_place(i)), i);
        assert_eq!(place_to_coord(index_to_place(i)), (x, y));
    }
    assert_eq!(index(0), 64);
}

#[test]
fn mv_steps_and_edges() {
    // Square 0 is the corner with file coordinate 0 and rank coordinate 0.
    assert_eq!(Dir::North.mv(1), None);
    assert_eq!(Dir::West.mv(1), None);
    assert_eq!(Dir::South.mv(1), Some(1 << 8));
    assert_eq!(Dir::East.mv(1), Some(1 << 1));
    assert_eq!(Dir::SouthEast.mv(1), Some(1 << 9));
    assert_eq!(Dir::NorthWest.mv(1 << 63), Some(1 << 54));
    assert_eq!(Dir::East.mv(1 << 7), None);
    assert_eq!(Dir::SouthWest.mv(1 << 7), Some(1 << 14));
    for d in Dir::all() {
        assert_eq!(d.flip().flip(), d);
    }
    assert_eq!(Dir::adj(), [Dir::North, Dir::South, Dir::East, Dir::West]);
    assert_eq!(
        Dir::diag(),
        [Dir::NorthEast, Dir::NorthWest, Dir::SouthEast, Dir::SouthWest]
    );
}

#[test]
fn iterators_walk_members_upwards() {
    let board: u64 = (1 << 3) | (1 << 17) | (1 << 63);
    let mut it = iter_index(board);
    assert_eq!(it.next(), Some(3));
    assert_eq!(it.next(), Some(17));
    assert_eq!(it.next(), Some(63));
    assert_eq!(it.next(), None);
    assert_eq!(it.next(), None);
    let mut it = iter_place(board);
    assert_eq!(it.next(), Some(1 << 3));
    assert_eq!(it.next(), Some(1 << 17));
    assert_eq!(it.next(), Some(1 << 63));
    assert_eq!(it.next(), None);
    let mut empty = iter_index(0);
    assert_eq!(empty.next(), None);
}

#[test]
fn rays_from_a_centre_square() {
    // Square 27: file coordinate 3, rank coordinate 3.
    assert_eq!(ray(27, Dir::North), (1 << 19) | (1 << 11) | (1 << 3));
    assert_eq!(ray(27, Dir::South), (1 << 35) | (1 << 43) | (1 << 51) | (1 << 59));
    assert_eq!(ray(27, Dir::East), (1 << 28) | (1 << 29) | (1 << 30) | (1 << 31));
    assert_eq!(ray(27, Dir::West), (1 << 26) | (1 << 25) | (1 << 24));
    assert_eq!(ray(27, Dir::NorthEast), (1 << 20) | (1 << 13) | (1 << 6));
    assert_eq!(ray(27, Dir::NorthWest), (1 << 18) | (1 << 9) | (1 << 0));
    assert_eq!(ray(27, Dir::SouthEast), (1 << 36) | (1 << 45) | (1 << 54) | (1 << 63));
    assert_eq!(ray(27, Dir::SouthWest), (1 << 34) | (1 << 41) | (1 << 48));
    assert_eq!(_ray(27, Dir::North, 1), (1 << 19) | (1 << 11));
    assert_eq!(_ray(27, Dir::West, 1), (1 << 26) | (1 << 25));
    assert_eq!(_ray(27, Dir::West, 3), 0);
    assert_eq!(_ray(27, Dir::West, 9), 0);
    assert_eq!(ray(0, Dir::North), 0);
    assert_eq!(ray(7, Dir::East), 0);
}

#[test]
fn ray_stops_at_first_blocker() {
    let blockers: u64 = (1 << 29) | (1 << 31) | (1 << 11) | (1 << 3);
    assert_eq!(ray_until_blocker(27, blockers, Dir::East), (1 << 28) | (1 << 29));
    assert_eq!(ray_until_blocker(27, blockers, Dir::North), (1 << 19) | (1 << 11));
    assert_eq!(ray_until_blocker(27, blockers, Dir::West), ray(27, Dir::West));
    assert_eq!(ray_until_blocker(27, 1 << 24, Dir::West), ray(27, Dir::West));
    assert_eq!(ray_until_blocker(27, 1 << 27, Dir::West), ray(27, Dir::West));
}
