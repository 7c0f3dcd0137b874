use minesweeper::board::{BoardInstance, Cell, MINE};

fn board_with(w: usize, h: usize, mines: &[usize]) -> BoardInstance {
    BoardInstance::with_mines(&(w, h), &mines.to_vec()).expect("valid layout")
}

/// Proximity recomputed by brute force from the mine layout.
fn brute_proximity(b: &BoardInstance, i: usize) -> u8 {
    let (w, h) = b.dim;
    let (x, y) = ((i % w) as isize, (i / w) as isize);
    let mut n = 0;
    for dy in -1isize..=1 {
        for dx in -1isize..=1 {
            if dx == 0 && dy == 0 {
                continue;
            }
            let (nx, ny) = (x + dx, y + dy);
            if nx >= 0 && ny >= 0 && (nx as usize) < w && (ny as usize) < h {
                if b.cells[nx as usize + ny as usize * w].proximity == MINE {
                    n += 1;
                }
            }
        }
    }
    n
}

/// The cells a cascade from `start` should reveal, found by a plain search.
fn expected_cascade(b: &BoardInstance, start: usize) -> Vec<usize> {
    let (w, h) = b.dim;
    let mut seen = vec![false; b.cells.len()];
    let mut stack = vec![start];
    seen[start] = true;
    let mut out = vec![];
    while let Some(c) = stack.pop() {
        out.push(c);
        if b.cells[c].proximity != 0 {
            continue;
        }
        let (x, y) = ((c % w) as isize, (c / w) as isize);
        for dy in -1isize..=1 {
            for dx in -1isize..=1 {
                let (nx, ny) = (x + dx, y + dy);
                if nx >= 0 && ny >= 0 && (nx as usize) < w && (ny as usize) < h {
                    let n = nx as usize + ny as usize * w;
                    if !seen[n] && b.cells[n].hidden {
                        seen[n] = true;
                        stack.push(n);
                    }
                }
            }
        }
    }
    out.sort();
    out
}

#[test]
fn three_by_three_corner_mine_cascade_wins() {
    let mut b = board_with(3, 3, &[8]);
    let mut r = b.reveal_index(0);
    r.sort();
    let expected: Vec<(usize, u8)> = vec![
        (0, 0),
        (1, 0),
        (2, 0),
        (3, 0),
        (4, 1),
        (5, 1),
        (6, 0),
        (7, 1),
    ];
    assert_eq!(r, expected);
    assert_eq!(b.revealed_count, 8);
    assert!(b.revealed_all());
}

#[test]
fn init_places_exactly_the_mines_asked_for() {
    for &(w, h, m) in &[(5usize, 4usize, 6usize), (10, 10, 99), (1, 2, 1), (7, 3, 0)] {
        let b = BoardInstance::init(&(w, h), m).expect("valid size");
        assert_eq!(b.cells.len(), w * h);
        assert_eq!(b.mine_count, m);
        assert_eq!(b.cells.iter().filter(|c| c.proximity == MINE).count(), m);
        assert_eq!(b.revealed_count, 0);
        assert!(b.cells.iter().all(|c| c.hidden));
    }
}

#[test]
fn init_proximities_match_brute_force() {
    for _ in 0..20 {
        let b = BoardInstance::init(&(8, 6), 12).expect("valid size");
        for i in 0..b.cells.len() {
            if b.cells[i].proximity != MINE {
                assert_eq!(b.cells[i].proximity, brute_proximity(&b, i));
            }
        }
    }
}

#[test]
fn init_rejects_boards_without_a_safe_cell() {
    assert!(BoardInstance::init(&(2, 2), 4).is_none());
    assert!(BoardInstance::init(&(2, 2), 5).is_none());
    assert!(BoardInstance::init(&(0, 5), 0).is_none());
    assert!(BoardInstance::init(&(usize::MAX, 2), 1).is_none());
    assert!(BoardInstance::init(&(2, 2), 3).is_some());
}

#[test]
fn with_mines_rejects_bad_layouts() {
    assert!(BoardInstance::with_mines(&(3, 3), &vec![1, 1]).is_none());
    assert!(BoardInstance::with_mines(&(3, 3), &vec![9]).is_none());
    assert!(BoardInstance::with_mines(&(1, 1), &vec![0]).is_none());
    assert!(BoardInstance::with_mines(&(3, 3), &vec![]).is_some());
}

#[test]
fn with_mines_computes_proximities() {
    let b = board_with(4, 3, &[0, 5, 11]);
    let prox: Vec<u8> = b.cells.iter().map(|c| c.proximity).collect();
    assert_eq!(prox, vec![MINE, 2, 1, 0, 2, MINE, 2, 1, 1, 1, 2, MINE]);
}

#[test]
fn revealing_twice_returns_nothing_the_second_time() {
    let mut b = board_with(4, 4, &[15]);
    let first = b.reveal_index(15 - 5);
    assert!(!first.is_empty());
    let count = b.revealed_count;
    assert!(b.reveal_index(10).is_empty());
    assert_eq!(b.revealed_count, count);
    let mut c = board_with(4, 4, &[0]);
    assert_eq!(c.reveal_index(1), vec![(1, 1)]);
    assert!(c.reveal_index(1).is_empty());
}

#[test]
fn revealing_a_mine_or_off_the_board_changes_nothing() {
    let mut b = board_with(3, 3, &[4]);
    assert!(b.reveal_index(4).is_empty());
    assert!(b.reveal_index(9).is_empty());
    assert!(b.reveal_index(usize::MAX).is_empty());
    assert_eq!(b.revealed_count, 0);
    assert!(b.cells.iter().all(|c| c.hidden));
}

#[test]
fn numbered_cell_stops_the_cascade() {
    let mut b = board_with(3, 3, &[0]);
    assert_eq!(b.reveal_index(1), vec![(1, 1)]);
    assert_eq!(b.revealed_count, 1);
}

#[test]
fn cascade_reveals_exactly_the_region_and_its_border() {
    let mines = [3, 14, 22, 30, 41, 42];
    for start in 0..49usize {
        let mut b = board_with(7, 7, &mines);
        if b.cells[start].proximity == MINE {
            continue;
        }
        let expected = expected_cascade(&b, start);
        let mut got: Vec<usize> = b.reveal_index(start).iter().map(|p| p.0).collect();
        got.sort();
        assert_eq!(got, expected);
        for (i, c) in b.cells.iter().enumerate() {
            assert_eq!(c.hidden, !expected.contains(&i));
        }
    }
}

#[test]
fn cascade_stops_at_revealed_cells_and_lists_proximities() {
    let mut b = board_with(5, 1, &[2]);
    assert_eq!(b.reveal_index(0), vec![(0, 0), (1, 1)]);
    let mut r = b.reveal_index(4);
    r.sort();
    assert_eq!(r, vec![(3, 1), (4, 0)]);
    assert!(b.revealed_all());
}

#[test]
fn reveal_cells_marks_unrevealed_with_nine() {
    let mut b = board_with(3, 3, &[0]);
    assert_eq!(b.reveal_cells(1), vec![9, 1, 9, 9, 9, 9, 9, 9, 9]);
    assert_eq!(b.reveal_cells(1), vec![9; 9]);
    assert_eq!(b.reveal_cells(0), Vec::<u8>::new());
    let mut r = b.reveal_cells(8);
    r.sort();
    assert_eq!(r, vec![0, 0, 0, 0, 0, 1, 1, 9, 9]);
}

#[test]
fn bomb_positions_list_every_mine_in_order() {
    let b = board_with(5, 5, &[24, 3, 11]);
    assert_eq!(b.get_bomb_positions(), vec![3, 11, 24]);
    assert_eq!(b.get_bomb_positions().len(), b.mine_count);
    let r = BoardInstance::init(&(6, 6), 7).unwrap();
    assert_eq!(r.get_bomb_positions().len(), 7);
}

#[test]
fn win_needs_every_safe_cell() {
    let mut b = board_with(2, 2, &[3]);
    assert!(!b.revealed_all());
    b.reveal_index(0);
    assert!(!b.revealed_all());
    b.reveal_index(1);
    assert!(!b.revealed_all());
    b.reveal_index(2);
    assert!(b.revealed_all());
}

#[test]
fn coordinates_and_indices_agree() {
    let b = board_with(4, 3, &[]);
    assert_eq!(b.coord_from_index(0), (0, 0));
    assert_eq!(b.coord_from_index(6), (2, 1));
    assert_eq!(b.coord_from_index(11), (3, 2));
    assert_eq!(b.ix(2, 1), 6);
    assert_eq!(b.ix(3, 2), 11);
    for i in 0..12 {
        let (x, y) = b.coord_from_index(i);
        assert_eq!(b.ix(x, y), i);
    }
}

#[test]
fn cell_value_is_plain_data() {
    let c = Cell { proximity: 3, hidden: true };
    let d = c;
    assert_eq!(c, d);
}

#[test]
fn reveal_cells_off_the_board_changes_nothing() {
    let mut b = board_with(3, 3, &[0]);
    assert_eq!(b.reveal_cells(9), Vec::<u8>::new());
    assert_eq!(b.reveal_cells(usize::MAX), Vec::<u8>::new());
    assert_eq!(b.revealed_count, 0);
    assert!(b.cells.iter().all(|c| c.hidden));
}

#[test]
fn large_open_board_cascades_without_deep_recursion() {
    let mut b = board_with(255, 255, &[255 * 255 - 1]);
    let r = b.reveal_index(0);
    assert_eq!(r.len(), 255 * 255 - 1);
    assert!(b.revealed_all());
}
