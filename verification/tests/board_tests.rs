use tile_board::board::Board;
use tile_board::geom::{Point, Size};

fn numbered(width: usize, height: usize) -> Board<u64> {
    Board::init(Size::of(width, height), |(x, y)| (y * width + x) as u64)
}

#[test]
fn init_size_and_cells() {
    let b = Board::init(Size::of(3, 2), |(x, y)| (y * 10 + x) as u64);
    let s = b.size();
    assert_eq!(s.width, 3);
    assert_eq!(s.height, 2);
    for y in 0..2 {
        for x in 0..3 {
            assert_eq!(*b.pick(Point::of(x, y)), (y * 10 + x) as u64);
        }
    }
}

#[test]
fn init_one_by_one() {
    let b = Board::init(Size::of(1, 1), |_| 42u64);
    let s = b.size();
    assert_eq!(s.width, 1);
    assert_eq!(s.height, 1);
    assert_eq!(*b.pick(Point::of(0, 0)), 42);
}

#[test]
fn from_wraps_body() {
    let b = Board::from(vec![vec![1u64, 2], vec![3, 4]]);
    let s = b.size();
    assert_eq!(s.width, 2);
    assert_eq!(s.height, 2);
    assert_eq!(*b.pick(Point::of(0, 1)), 3);
}

#[test]
fn is_valid_boundaries() {
    let b = numbered(3, 2);
    // the four corner points
    assert!(b.is_valid(Point::of(0, 0)));
    assert!(b.is_valid(Point::of(2, 0)));
    assert!(b.is_valid(Point::of(0, 1)));
    assert!(b.is_valid(Point::of(2, 1)));
    // the just-outside points past each edge
    assert!(!b.is_valid(Point::of(3, 0)));
    assert!(!b.is_valid(Point::of(3, 1)));
    assert!(!b.is_valid(Point::of(0, 2)));
    assert!(!b.is_valid(Point::of(2, 2)));
}

#[test]
fn valid_wraps_point() {
    let b = numbered(3, 2);
    assert_eq!(b.valid(Point::of(1, 1)), Some(Point::of(1, 1)));
    assert_eq!(b.valid(Point::of(3, 0)), None);
    assert_eq!(b.valid(Point::of(0, 2)), None);
}

#[test]
fn neighbor_laws() {
    let b = numbered(3, 2);
    // top is absent exactly on the first row, else valid of the shifted point
    assert_eq!(b.top(Point::of(1, 0)), None);
    assert_eq!(b.top(Point::of(1, 1)), b.valid(Point::of(1, 0)));
    // bottom past the last row is absent
    assert_eq!(b.bottom(Point::of(1, 0)), Some(Point::of(1, 1)));
    assert_eq!(b.bottom(Point::of(1, 1)), None);
    // left is absent exactly on the first column
    assert_eq!(b.left(Point::of(0, 1)), None);
    assert_eq!(b.left(Point::of(2, 1)), b.valid(Point::of(1, 1)));
    // right past the last column is absent
    assert_eq!(b.right(Point::of(1, 0)), Some(Point::of(2, 0)));
    assert_eq!(b.right(Point::of(2, 0)), None);
}

#[test]
fn neighbors_on_three_by_one() {
    let b = numbered(3, 1);
    assert_eq!(b.left(Point::of(0, 0)), None);
    assert_eq!(b.right(Point::of(0, 0)), Some(Point::of(1, 0)));
    assert_eq!(b.right(Point::of(2, 0)), None);
}

#[test]
fn fold_row_major_order() {
    let b = numbered(3, 2);
    let visited = b.fold(Vec::new(), |mut acc: Vec<(usize, usize)>, (p, _)| {
        acc.push((p.x, p.y));
        acc
    });
    assert_eq!(visited.len(), 6);
    assert_eq!(visited, vec![(0, 0), (1, 0), (2, 0), (0, 1), (1, 1), (2, 1)]);
    // strict row-major order between any two visiting steps
    for i in 0..visited.len() {
        for j in (i + 1)..visited.len() {
            let (xi, yi) = visited[i];
            let (xj, yj) = visited[j];
            assert!(yi < yj || (yi == yj && xi < xj));
        }
    }
}

#[test]
fn fold_rev_is_reverse_of_fold() {
    let b = numbered(3, 2);
    let forward = b.fold(Vec::new(), |mut acc: Vec<(usize, usize, u64)>, (p, v)| {
        acc.push((p.x, p.y, *v));
        acc
    });
    let backward = b.fold_rev(Vec::new(), |mut acc: Vec<(usize, usize, u64)>, (p, v)| {
        acc.push((p.x, p.y, *v));
        acc
    });
    let mut reversed = forward.clone();
    reversed.reverse();
    // same cells, each exactly once, in exactly the reverse order,
    // reported with their true coordinates
    assert_eq!(backward, reversed);
    assert_eq!(backward.len(), 6);
    assert_eq!(backward[0], (2, 1, 5));
    assert_eq!(backward[5], (0, 0, 0));
}

#[test]
fn map_transforms_every_cell() {
    let b = numbered(3, 2);
    let doubled = b.map(|(_, v)| v * 2);
    let s = doubled.size();
    assert_eq!(s.width, 3);
    assert_eq!(s.height, 2);
    for y in 0..2 {
        for x in 0..3 {
            let p = Point::of(x, y);
            assert_eq!(*doubled.pick(p), *b.pick(p) * 2);
            // the original board is unmodified
            assert_eq!(*b.pick(p), (y * 3 + x) as u64);
        }
    }
}

#[test]
fn each_visits_every_cell_once() {
    let b = numbered(3, 2);
    let seen = std::cell::RefCell::new(Vec::new());
    b.each(|(p, v)| {
        seen.borrow_mut().push((p.x, p.y, *v));
    });
    let seen = seen.into_inner();
    assert_eq!(
        seen,
        vec![(0, 0, 0), (1, 0, 1), (2, 0, 2), (0, 1, 3), (1, 1, 4), (2, 1, 5)]
    );
}

#[test]
fn insert_overwrites_one_cell() {
    let mut b = numbered(2, 2);
    b.insert(Point::of(1, 0), 99);
    assert_eq!(*b.pick(Point::of(1, 0)), 99);
    assert_eq!(*b.pick(Point::of(0, 0)), 0);
    assert_eq!(*b.pick(Point::of(0, 1)), 2);
    assert_eq!(*b.pick(Point::of(1, 1)), 3);
}

#[test]
fn change_exchanges_two_cells() {
    let b = numbered(3, 2);
    let b = b.change(Point::of(0, 0), Point::of(2, 1));
    assert_eq!(*b.pick(Point::of(0, 0)), 5);
    assert_eq!(*b.pick(Point::of(2, 1)), 0);
    // nothing else changes
    assert_eq!(*b.pick(Point::of(1, 0)), 1);
    assert_eq!(*b.pick(Point::of(2, 0)), 2);
    assert_eq!(*b.pick(Point::of(0, 1)), 3);
    assert_eq!(*b.pick(Point::of(1, 1)), 4);
}

#[test]
fn change_same_row() {
    let b = numbered(3, 1);
    let b = b.change(Point::of(2, 0), Point::of(0, 0));
    assert_eq!(*b.pick(Point::of(0, 0)), 2);
    assert_eq!(*b.pick(Point::of(1, 0)), 1);
    assert_eq!(*b.pick(Point::of(2, 0)), 0);
}

#[test]
fn change_twice_restores() {
    let a = Point::of(1, 0);
    let c = Point::of(0, 1);
    let b = numbered(2, 2).change(a, c).change(a, c);
    for y in 0..2 {
        for x in 0..2 {
            assert_eq!(*b.pick(Point::of(x, y)), (y * 2 + x) as u64);
        }
    }
}

#[test]
fn change_point_with_itself() {
    let p = Point::of(1, 1);
    let b = numbered(2, 2).change(p, p);
    for y in 0..2 {
        for x in 0..2 {
            assert_eq!(*b.pick(Point::of(x, y)), (y * 2 + x) as u64);
        }
    }
}

#[test]
fn is_valid_far_outside() {
    let b = numbered(2, 2);
    assert!(!b.is_valid(Point::of(usize::MAX, 0)));
    assert!(!b.is_valid(Point::of(0, usize::MAX)));
    assert_eq!(b.try_pick(Point::of(usize::MAX, usize::MAX)), Err(()));
}

#[test]
fn scenario_two_by_two() {
    let b = Board::init(Size::of(2, 2), |(x, y)| (y * 2 + x) as u64);
    assert_eq!(*b.pick(Point::of(0, 0)), 0);
    assert_eq!(*b.pick(Point::of(1, 0)), 1);
    assert_eq!(*b.pick(Point::of(0, 1)), 2);
    assert_eq!(*b.pick(Point::of(1, 1)), 3);
    let concat = |acc: String, (_, v): (Point, &u64)| format!("{}{}", acc, v);
    assert_eq!(b.fold(String::new(), concat), "0123");
    let swapped = b.change(Point::of(0, 0), Point::of(1, 1));
    assert_eq!(*swapped.pick(Point::of(0, 0)), 3);
    assert_eq!(*swapped.pick(Point::of(1, 0)), 1);
    assert_eq!(*swapped.pick(Point::of(0, 1)), 2);
    assert_eq!(*swapped.pick(Point::of(1, 1)), 0);
    assert_eq!(swapped.fold(String::new(), concat), "3120");
}

#[test]
fn try_pick_checked_access() {
    for (w, h) in [(1usize, 1usize), (3, 2), (2, 4)] {
        let b = numbered(w, h);
        for y in 0..h {
            for x in 0..w {
                let p = Point::of(x, y);
                assert_eq!(b.try_pick(p), Ok(b.pick(p)));
            }
        }
        assert_eq!(b.try_pick(Point::of(w, 0)), Err(()));
        assert_eq!(b.try_pick(Point::of(0, h)), Err(()));
        assert_eq!(b.try_pick(Point::of(w, h)), Err(()));
    }
}

#[test]
fn update_rebuilds_cell_by_cell() {
    let b = numbered(2, 2);
    let bumped = b.update(|mut acc: Board<u64>, (p, v)| {
        acc.insert(p, v + 1);
        acc
    });
    for y in 0..2 {
        for x in 0..2 {
            let p = Point::of(x, y);
            assert_eq!(*bumped.pick(p), *b.pick(p) + 1);
        }
    }
}

#[test]
fn clone_copies_cells() {
    let b = numbered(3, 2);
    let c = b.clone();
    let s = c.size();
    assert_eq!(s.width, 3);
    assert_eq!(s.height, 2);
    for y in 0..2 {
        for x in 0..3 {
            let p = Point::of(x, y);
            assert_eq!(*c.pick(p), *b.pick(p));
        }
    }
}

#[test]
fn render_frames_rows() {
    let b = Board::init(Size::of(2, 2), |(x, y)| (y * 2 + x) as u64);
    let lines = b.render(|(_, v)| v.to_string());
    assert_eq!(lines, vec!["|0|1|".to_string(), "|2|3|".to_string()]);
}

#[test]
fn render_single_row() {
    let b = Board::from(vec![vec!["ab".to_string(), "c".to_string()]]);
    let lines = b.render(|(_, v)| v.clone());
    assert_eq!(lines, vec!["|ab|c|".to_string()]);
}

#[test]
fn point_and_size_constructors() {
    let p = Point::of(4, 7);
    assert_eq!(p.x, 4);
    assert_eq!(p.y, 7);
    let s = Size::of(5, 6);
    assert_eq!(s.width, 5);
    assert_eq!(s.height, 6);
    assert_eq!(p, Point::of(4, 7));
    assert_ne!(p, Point::of(7, 4));
}
