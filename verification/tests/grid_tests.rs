use gridwords::grid::{Board, GridError, Point};

fn rows(strs: &[&str]) -> Vec<Vec<char>> {
    strs.iter().map(|s| s.chars().collect()).collect()
}

fn board(strs: &[&str]) -> Board {
    Board::new(rows(strs)).unwrap()
}

fn cheb(a: &Point, b: &Point) -> i32 {
    let dx = (a.x as i32 - b.x as i32).abs();
    let dy = (a.y as i32 - b.y as i32).abs();
    dx.max(dy)
}

#[test]
fn construction_rejects_missing_source() {
    assert!(matches!(Board::new(Vec::new()), Err(GridError::NoRows)));
}

#[test]
fn construction_rejects_uneven_rows() {
    assert!(matches!(
        Board::new(rows(&["abc", "de"])),
        Err(GridError::UnevenRows)
    ));
}

#[test]
fn construction_rejects_oversized_board() {
    let tall: Vec<Vec<char>> = (0..40000).map(|_| Vec::new()).collect();
    assert!(matches!(Board::new(tall), Err(GridError::TooLarge)));
}

#[test]
fn construction_rejects_oversized_row() {
    let wide: Vec<Vec<char>> = vec![(0..40000).map(|_| 'a').collect()];
    assert!(matches!(Board::new(wide), Err(GridError::TooLarge)));
}

#[test]
fn construction_records_dimensions() {
    let b = board(&["abc", "def"]);
    assert_eq!(b.width(), 3);
    assert_eq!(b.height(), 2);
}

#[test]
fn char_at_reads_the_grid() {
    let b = board(&["abc", "def"]);
    assert_eq!(b.char_at(&Point { x: 0, y: 0 }), 'a');
    assert_eq!(b.char_at(&Point { x: 2, y: 1 }), 'f');
}

#[test]
fn to_chars_spells_the_path() {
    let b = board(&["abc", "def"]);
    let path = vec![
        Point { x: 0, y: 0 },
        Point { x: 1, y: 1 },
        Point { x: 2, y: 0 },
    ];
    assert_eq!(b.to_chars(&path), vec!['a', 'e', 'c']);
}

#[test]
fn neighbours_of_inner_cell_are_the_full_ring() {
    let b = board(&["abc", "def", "ghi"]);
    let centre = Point { x: 1, y: 1 };
    let ns = b.neighbours(&centre, &Vec::new());
    assert_eq!(ns.len(), 8);
    for n in &ns {
        assert!(n.x >= 0 && n.x < 3 && n.y >= 0 && n.y < 3);
        assert_eq!(cheb(n, &centre), 1);
    }
    for i in 0..ns.len() {
        for j in i + 1..ns.len() {
            assert_ne!(ns[i], ns[j]);
        }
    }
}

#[test]
fn neighbours_come_in_scan_order() {
    let b = board(&["abc", "def", "ghi"]);
    let centre = Point { x: 1, y: 1 };
    let ns = b.neighbours(&centre, &Vec::new());
    let expected = vec![
        Point { x: 0, y: 0 },
        Point { x: 0, y: 1 },
        Point { x: 0, y: 2 },
        Point { x: 1, y: 0 },
        Point { x: 1, y: 2 },
        Point { x: 2, y: 0 },
        Point { x: 2, y: 1 },
        Point { x: 2, y: 2 },
    ];
    assert_eq!(ns, expected);
}

#[test]
fn neighbours_of_corner_are_clipped() {
    let b = board(&["abc", "def", "ghi"]);
    let corner = Point { x: 0, y: 0 };
    let ns = b.neighbours(&corner, &Vec::new());
    assert_eq!(ns.len(), 3);
    for n in &ns {
        assert_eq!(cheb(n, &corner), 1);
    }
}

#[test]
fn neighbours_exclude_visited_cells() {
    let b = board(&["abc", "def", "ghi"]);
    let path = vec![
        Point { x: 0, y: 1 },
        Point { x: 0, y: 0 },
        Point { x: 1, y: 0 },
    ];
    let last = Point { x: 1, y: 0 };
    let ns = b.neighbours(&last, &path);
    for p in &path {
        assert!(!ns.contains(p));
    }
    assert_eq!(ns.len(), 3);
}

#[test]
fn render_shows_path_cells_only() {
    let b = board(&["cat", "arx"]);
    let path = vec![
        Point { x: 0, y: 0 },
        Point { x: 1, y: 0 },
        Point { x: 2, y: 0 },
    ];
    assert_eq!(b.to_str(&path), "cat\n   \n");
    let diagonal = vec![Point { x: 0, y: 0 }, Point { x: 1, y: 1 }];
    assert_eq!(b.to_str(&diagonal), "c  \n r \n");
    let empty: Vec<Point> = Vec::new();
    assert_eq!(b.to_str(&empty), "   \n   \n");
}
