use geodesic_wallpaper::pathfinding_art::{Maze, MazeGenerator, MazeRenderer, PathFinder, E, N, S, W};

fn is_walk(maze: &Maze, p: &[(u32, u32)]) -> bool {
    p.windows(2).all(|w| {
        let (a, b) = (w[0], w[1]);
        (a.1 > 0 && b == (a.0, a.1 - 1) && !maze.has_wall(a.0, a.1, N))
            || (b == (a.0 + 1, a.1) && a.0 + 1 < maze.width && !maze.has_wall(a.0, a.1, E))
            || (b == (a.0, a.1 + 1) && a.1 + 1 < maze.height && !maze.has_wall(a.0, a.1, S))
            || (a.0 > 0 && b == (a.0 - 1, a.1) && !maze.has_wall(a.0, a.1, W))
    })
}

#[test]
fn test_maze_new_all_walls() {
    let maze = Maze::new(5, 5);
    assert!(maze.has_wall(2, 2, N));
    assert!(maze.has_wall(2, 2, E));
}

#[test]
fn test_remove_wall() {
    let mut maze = Maze::new(5, 5);
    maze.remove_wall(0, 0, E);
    assert!(!maze.has_wall(0, 0, E));
    assert!(!maze.has_wall(1, 0, W));
}

#[test]
fn test_recursive_backtracker_connected() {
    let maze = MazeGenerator::recursive_backtracker(10, 10, 42);
    // BFS should be able to reach every cell
    let path = PathFinder::bfs(&maze, (0, 0), (9, 9));
    assert!(path.is_some(), "Maze should be fully connected");
}

#[test]
fn test_prims_connected() {
    let maze = MazeGenerator::prims_algorithm(8, 8, 99);
    let path = PathFinder::bfs(&maze, (0, 0), (7, 7));
    assert!(path.is_some());
}

#[test]
fn test_sidewinder_connected() {
    let maze = MazeGenerator::sidewinder(8, 8, 7);
    let path = PathFinder::bfs(&maze, (0, 0), (7, 7));
    assert!(path.is_some());
}

#[test]
fn test_astar_finds_path() {
    let maze = MazeGenerator::recursive_backtracker(6, 6, 1);
    let path = PathFinder::astar(&maze, (0, 0), (5, 5));
    assert!(path.is_some());
    let p = path.unwrap();
    assert_eq!(p[0], (0, 0));
    assert_eq!(*p.last().unwrap(), (5, 5));
}

#[test]
fn test_manhattan() {
    assert_eq!(PathFinder::manhattan((0, 0), (3, 4)), 7);
}

#[test]
fn test_ascii_render() {
    let maze = MazeGenerator::recursive_backtracker(4, 4, 5);
    let ascii = MazeRenderer::render_ascii(&maze, None);
    assert!(ascii.contains('+'));
    assert!(ascii.contains('-'));
}

#[test]
fn ascii_render_of_closed_two_by_one() {
    let maze = Maze::new(2, 1);
    let ascii = MazeRenderer::render_ascii(&maze, None);
    assert_eq!(ascii, "+---+---+\n|   |   |\n+---+---+");
}

#[test]
fn ascii_render_marks_path_and_openings() {
    let mut maze = Maze::new(2, 1);
    maze.remove_wall(0, 0, E);
    let path = [(0u32, 0u32), (1, 0)];
    let ascii = MazeRenderer::render_ascii(&maze, Some(&path));
    assert_eq!(ascii, "+---+---+\n| *   * |\n+---+---+");
}

#[test]
fn every_generator_connects_every_pair_of_cells() {
    for seed in 0..5u64 {
        for maze in [
            MazeGenerator::recursive_backtracker(7, 5, seed),
            MazeGenerator::prims_algorithm(7, 5, seed),
            MazeGenerator::sidewinder(7, 5, seed),
        ] {
            for &(a, b) in &[((0u32, 0u32), (6u32, 4u32)), ((6, 0), (0, 4)), ((3, 2), (0, 0))] {
                let p = PathFinder::bfs(&maze, a, b).expect("connected");
                assert_eq!(p[0], a);
                assert_eq!(*p.last().unwrap(), b);
                assert!(is_walk(&maze, &p));
                let q = PathFinder::astar(&maze, a, b).expect("connected");
                assert_eq!(q[0], a);
                assert_eq!(*q.last().unwrap(), b);
                assert!(is_walk(&maze, &q));
            }
        }
    }
}

#[test]
fn generators_keep_the_border_closed() {
    let maze = MazeGenerator::prims_algorithm(6, 4, 3);
    for x in 0..6 {
        assert!(maze.has_wall(x, 0, N));
        assert!(maze.has_wall(x, 3, S));
    }
    for y in 0..4 {
        assert!(maze.has_wall(0, y, W));
        assert!(maze.has_wall(5, y, E));
    }
}

#[test]
fn search_in_closed_maze_finds_nothing() {
    let maze = Maze::new(3, 3);
    assert!(PathFinder::bfs(&maze, (0, 0), (2, 2)).is_none());
    assert!(PathFinder::astar(&maze, (0, 0), (2, 2)).is_none());
}

#[test]
fn search_from_a_cell_to_itself() {
    let maze = Maze::new(3, 3);
    assert_eq!(PathFinder::bfs(&maze, (1, 1), (1, 1)), Some(vec![(1, 1)]));
    assert_eq!(PathFinder::astar(&maze, (1, 1), (1, 1)), Some(vec![(1, 1)]));
}

#[test]
fn bfs_walks_through_a_corridor() {
    let mut maze = Maze::new(3, 1);
    maze.remove_wall(0, 0, E);
    maze.remove_wall(1, 0, E);
    assert_eq!(PathFinder::bfs(&maze, (0, 0), (2, 0)), Some(vec![(0, 0), (1, 0), (2, 0)]));
    assert_eq!(PathFinder::bfs(&maze, (2, 0), (0, 0)), Some(vec![(2, 0), (1, 0), (0, 0)]));
}

#[test]
fn render_maze_draws_walls_cells_and_path() {
    let mut maze = Maze::new(2, 1);
    maze.remove_wall(0, 0, E);
    let path = [(1u32, 0u32)];
    let colors = [[10u8, 20, 30]];
    let px = MazeRenderer::render_maze(&maze, Some(&path), &colors, 12, 6);
    assert_eq!(px.len(), 6);
    assert!(px.iter().all(|r| r.len() == 12));
    // Cells are 6x6 with one-pixel walls.
    assert_eq!(px[0][0], [0, 0, 0]); // north wall of (0,0)
    assert_eq!(px[3][0], [0, 0, 0]); // west wall of (0,0)
    assert_eq!(px[3][3], [255, 255, 255]); // interior of (0,0)
    assert_eq!(px[3][8], [10, 20, 30]); // interior of (1,0), on the path
    assert_eq!(px[3][11], [0, 0, 0]); // east border
    assert_eq!(px[5][3], [0, 0, 0]); // south border
}

#[test]
fn render_maze_leaves_uncovered_pixels_white() {
    let maze = Maze::new(3, 3);
    let px = MazeRenderer::render_maze(&maze, None, &[], 10, 10);
    // 3x3 cells of 3x3 pixels cover 9x9; the rest stays white.
    assert_eq!(px[9][9], [255, 255, 255]);
    assert_eq!(px[4][9], [255, 255, 255]);
}

#[test]
fn bfs_and_astar_find_walks_of_equal_length() {
    for seed in 0..20u64 {
        for maze in [
            MazeGenerator::recursive_backtracker(9, 7, seed),
            MazeGenerator::prims_algorithm(9, 7, seed),
            MazeGenerator::sidewinder(9, 7, seed),
        ] {
            let b = PathFinder::bfs(&maze, (0, 0), (8, 6)).unwrap();
            let a = PathFinder::astar(&maze, (0, 0), (8, 6)).unwrap();
            assert_eq!(a.len(), b.len());
        }
    }
}

#[test]
fn open_grid_shortest_walk_follows_manhattan_distance() {
    let mut maze = Maze::new(4, 3);
    for y in 0..3u32 {
        for x in 0..4u32 {
            if x + 1 < 4 {
                maze.remove_wall(x, y, E);
            }
            if y + 1 < 3 {
                maze.remove_wall(x, y, S);
            }
        }
    }
    let b = PathFinder::bfs(&maze, (0, 0), (3, 2)).unwrap();
    let a = PathFinder::astar(&maze, (0, 0), (3, 2)).unwrap();
    assert_eq!(b.len(), 6);
    assert_eq!(a.len(), 6);
    assert_eq!(b[0], (0, 0));
    assert_eq!(*a.last().unwrap(), (3, 2));
}
