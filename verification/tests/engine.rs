use multisnake::object::Tile;
use multisnake::snake::{Direction, LocalController, Snake};
use multisnake::snakegrid::SnakeGrid;

fn local(name: &str) -> LocalController {
    LocalController::new(name.to_string())
}

fn new_grid(w: i32, h: i32, players: usize) -> SnakeGrid<LocalController> {
    let mut g: SnakeGrid<LocalController> = SnakeGrid::new(w, h);
    for i in 0..players {
        g.add_snake(local(&format!("p{}", i)));
    }
    g
}

fn tick(g: &mut SnakeGrid<LocalController>, dirs: Vec<Direction>) {
    g.tick_with_inputs(&dirs, &Vec::new());
}

fn body(g: &SnakeGrid<LocalController>, i: usize) -> Vec<i32> {
    g.get_all_snake_refs()[i].tiles.clone()
}

fn alive(g: &SnakeGrid<LocalController>, i: usize) -> bool {
    g.get_all_snake_refs()[i].alive
}

#[test]
fn center_agent_moving_right_two_ticks() {
    // A 5x5 empty grid with one length-1 agent, walked to the center
    // (index 12), then moved Right for two ticks: it ends on 14, cell 13
    // is empty again per the shedding rule, and 12 is empty.
    let mut g = new_grid(5, 5, 1);
    g.start_game(); // quadrant spawn: (1,1) = index 6
    assert_eq!(body(&g, 0), vec![6]);
    tick(&mut g, vec![Direction::RIGHT]); // 7
    tick(&mut g, vec![Direction::DOWN]); // 12, the center
    assert_eq!(body(&g, 0), vec![12]);
    tick(&mut g, vec![Direction::RIGHT]);
    tick(&mut g, vec![Direction::RIGHT]);
    assert_eq!(body(&g, 0), vec![14]);
    let grid = g.clone_raw_grid();
    assert_eq!(grid[14], Tile::Snake { id: 0 });
    assert_eq!(grid[13], Tile::EMPTY);
    assert_eq!(grid[12], Tile::EMPTY);
    assert!(alive(&g, 0));
}

#[test]
fn out_of_bounds_move_kills_and_leaves_remnants() {
    let mut g = new_grid(5, 5, 1);
    g.start_game(); // index 6 = (1, 1)
    tick(&mut g, vec![Direction::UP]); // (1, 0) = 1
    assert_eq!(body(&g, 0), vec![1]);
    tick(&mut g, vec![Direction::UP]); // off the board
    assert!(!alive(&g, 0));
    assert_eq!(body(&g, 0), vec![1]); // frozen body
    assert_eq!(g.clone_raw_grid()[1], Tile::DeadSnake);
}

#[test]
fn head_on_collision_kills_both() {
    // two agents at (1,1)=6 and (1,3)=16 both aim at (1,2)=11
    let mut g = new_grid(5, 5, 2);
    g.start_game();
    assert_eq!(body(&g, 0), vec![6]);
    assert_eq!(body(&g, 1), vec![16]);
    tick(&mut g, vec![Direction::DOWN, Direction::UP]);
    assert!(!alive(&g, 0));
    assert!(!alive(&g, 1));
    let grid = g.clone_raw_grid();
    assert_eq!(grid[6], Tile::DeadSnake);
    assert_eq!(grid[16], Tile::DeadSnake);
    // the contested cell was never occupied
    assert_eq!(grid[11], Tile::EMPTY);
}

#[test]
fn running_into_a_standing_body_is_lethal() {
    // agent 0 (processed first) walks into agent 1's still-standing cell
    let mut g = new_grid(5, 5, 2);
    g.start_game(); // 0 at 6, 1 at 16
    tick(&mut g, vec![Direction::DOWN, Direction::RIGHT]); // 0: 11, 1: 17
    assert_eq!(body(&g, 0), vec![11]);
    assert_eq!(body(&g, 1), vec![17]);
    tick(&mut g, vec![Direction::RIGHT, Direction::UP]);
    // both aimed at 12: a head-to-head, both die
    assert!(!alive(&g, 0));
    assert!(!alive(&g, 1));
}

#[test]
fn moving_onto_a_freed_cell_is_safe_but_contested_cells_kill() {
    let mut g = new_grid(5, 5, 2);
    g.start_game(); // 0 at 6, 1 at 16
    tick(&mut g, vec![Direction::DOWN, Direction::RIGHT]); // 0: 11, 1: 17
    tick(&mut g, vec![Direction::DOWN, Direction::LEFT]);
    // both aimed at the freed cell 16: a head-to-head, both die
    assert!(!alive(&g, 0));
    assert!(!alive(&g, 1));
}

#[test]
fn stepping_onto_a_remnant_is_lethal() {
    let mut g = new_grid(5, 5, 2);
    g.start_game(); // 0 at 6, 1 at 16
    tick(&mut g, vec![Direction::RIGHT, Direction::LEFT]); // 0: 7, 1: 15
    tick(&mut g, vec![Direction::RIGHT, Direction::LEFT]); // 0: 8, 1 walks off the board
    assert!(!alive(&g, 1));
    assert_eq!(g.clone_raw_grid()[15], Tile::DeadSnake);
    // walk agent 0 next to the remnant, then into it
    tick(&mut g, vec![Direction::DOWN, Direction::NONE]); // 13
    tick(&mut g, vec![Direction::DOWN, Direction::NONE]); // 18
    tick(&mut g, vec![Direction::LEFT, Direction::NONE]); // 17
    tick(&mut g, vec![Direction::LEFT, Direction::NONE]); // 16
    assert!(alive(&g, 0));
    assert_eq!(body(&g, 0), vec![16]);
    tick(&mut g, vec![Direction::LEFT, Direction::NONE]); // onto the remnant at 15
    assert!(!alive(&g, 0));
    assert_eq!(g.clone_raw_grid()[16], Tile::DeadSnake);
    assert_eq!(g.clone_raw_grid()[15], Tile::DeadSnake);
}

#[test]
fn check_end_reports_winner_no_winner_and_ongoing() {
    // ongoing with two alive
    let mut g = new_grid(5, 5, 2);
    g.start_game();
    assert_eq!(g.check_end().err(), Some(1));

    // exactly one alive: its identity comes back
    tick(&mut g, vec![Direction::UP, Direction::RIGHT]); // 0: 1, 1: 17
    tick(&mut g, vec![Direction::UP, Direction::LEFT]); // 0 dies off-board, 1: 16
    let winner = g.check_end().unwrap();
    assert_eq!(winner.id, 1);
    assert!(winner.alive);

    // zero alive: distinct "no winner" code
    let mut g2 = new_grid(5, 5, 2);
    g2.start_game();
    tick(&mut g2, vec![Direction::DOWN, Direction::UP]); // head-on at 11
    assert_eq!(g2.check_end().err(), Some(0));
}

#[test]
fn growth_after_eating_food() {
    let mut g = new_grid(5, 5, 1);
    g.start_game(); // head at 6
    g.do_place_food();
    let grid = g.clone_raw_grid();
    let food = grid
        .iter()
        .position(|t| *t == Tile::FOOD)
        .expect("food was placed on a 5x5 board with one agent") as i32;
    // walk to the food: first fix the column, then the row
    let mut steps = 0;
    loop {
        let head = body(&g, 0)[0];
        if head == food {
            break;
        }
        let (hx, hy) = (head % 5, head / 5);
        let (fx, fy) = (food % 5, food / 5);
        let dir = if hx < fx {
            Direction::RIGHT
        } else if hx > fx {
            Direction::LEFT
        } else if hy < fy {
            Direction::DOWN
        } else {
            Direction::UP
        };
        tick(&mut g, vec![dir]);
        steps += 1;
        assert!(alive(&g, 0));
        assert!(steps <= 8, "the walk to the food cell must terminate");
    }
    // one food consumed, still alive: body length is min(1+1, ticks+1) = 2
    let refs = g.get_all_snake_refs();
    assert_eq!(refs[0].tiles.len(), 2);
    assert_eq!(refs[0].size, 2);
    assert_eq!(refs[0].tiles[0], food);
}

#[test]
fn neutral_direction_is_not_a_stop() {
    // with no movement offset the candidate is the agent's own head,
    // which is occupied by itself: lethal
    let mut g = new_grid(5, 5, 1);
    g.start_game();
    tick(&mut g, vec![Direction::NONE]);
    assert!(!alive(&g, 0));
}

#[test]
fn place_food_lands_on_an_empty_cell() {
    let mut g: SnakeGrid<LocalController> = SnakeGrid::new(2, 2);
    g.do_place_food();
    let grid = g.clone_raw_grid();
    let food_count = grid.iter().filter(|t| **t == Tile::FOOD).count();
    assert_eq!(food_count, 1);
    assert_eq!(grid.len(), 4);
}

#[test]
fn random_spawn_positions_are_distinct_and_in_range() {
    let g: SnakeGrid<LocalController> = SnakeGrid::new(5, 5);
    let ps = g.get_random_spawn_positions();
    assert!(!ps.is_empty());
    for (i, p) in ps.iter().enumerate() {
        assert!(*p >= 0 && *p < 25);
        for q in &ps[i + 1..] {
            assert_ne!(p, q);
        }
    }
}

#[test]
fn many_agents_get_ids_in_order() {
    let mut g = new_grid(6, 6, 9); // more agents than built-in colors
    let refs = g.get_all_snake_refs();
    assert_eq!(refs.len(), 9);
    for (i, r) in refs.iter().enumerate() {
        assert_eq!(r.id, i as i32);
        assert!(r.alive);
        assert_eq!(r.size, 1);
        assert!(r.tiles.is_empty());
    }
    g.start_game(); // more than four agents: random distinct spawn cells
    for r in g.get_all_snake_refs() {
        if r.alive {
            assert_eq!(r.tiles.len(), 1);
        }
    }
}

#[test]
fn clear_resets_board_and_bodies() {
    let mut g = new_grid(5, 5, 1);
    g.start_game();
    tick(&mut g, vec![Direction::RIGHT]);
    g.clear();
    let refs = g.get_all_snake_refs();
    assert!(refs[0].tiles.is_empty());
    // the reset board holds exactly one food tile, everything else empty
    let grid = g.clone_raw_grid();
    let food = grid.iter().filter(|t| **t == Tile::FOOD).count();
    let empty = grid.iter().filter(|t| **t == Tile::EMPTY).count();
    assert_eq!(food, 1);
    assert_eq!(empty, 24);
}

#[test]
fn spawn_seat_holding_food_is_taken() {
    // on a 1x1 board the only cell gets the food and is also the only
    // quadrant seat: the agent takes it, covering the food, and lives
    let mut g = new_grid(1, 1, 1);
    g.do_place_food();
    assert_eq!(g.clone_raw_grid(), vec![Tile::FOOD]);
    g.start_game();
    assert!(alive(&g, 0));
    assert_eq!(body(&g, 0), vec![0]);
    assert_eq!(g.clone_raw_grid(), vec![Tile::Snake { id: 0 }]);
}

#[test]
fn index_xy_round_trip() {
    assert_eq!(SnakeGrid::<LocalController>::index_to_xy(12, 5), (2, 2));
    assert_eq!(SnakeGrid::<LocalController>::xy_to_index(2, 2, 5), 12);
    assert_eq!(SnakeGrid::<LocalController>::index_to_xy(14, 5), (4, 2));
}

#[test]
fn snake_state_machine_basics() {
    let mut s: Snake<LocalController> = Snake::new(4, local("solo"), (9, 9, 9));
    assert!(!s.is_dead());
    assert_eq!(s.get_id(), 4);
    assert_eq!(s.get_name(), "solo");

    // spawn, then move without growth: the tail is shed
    assert!(s.move_head(10).is_empty());
    assert_eq!(s.move_head(11), vec![10]);
    assert_eq!(s.get_head(), 11);

    // growth takes effect lazily on the next move
    s.grow();
    assert!(s.move_head(12).is_empty());
    assert_eq!(s.get_tiles(), &vec![12, 11]);

    // the kill path freezes the body; a second kill returns it again
    let frozen = s.kill().clone();
    assert_eq!(frozen, vec![12, 11]);
    assert!(s.is_dead());
    assert_eq!(s.kill(), &vec![12, 11]);

    // a dead agent neither moves nor sheds, and has no direction
    assert!(s.move_head(13).is_empty());
    assert_eq!(s.get_tiles(), &vec![12, 11]);
    assert_eq!(s.next_direction(), Direction::NONE);
}

#[test]
fn controller_plumbing_smoke() {
    let mut g = new_grid(4, 4, 2);
    g.start_game();
    g.update_input();
    g.send_gamestate();
    g.reconnect();
    let dict = g.get_info_dict();
    assert!(dict.is_empty()); // local controllers offer no diagnostics
    // a local controller's sampled direction drives the engine tick
    let mut s: Snake<LocalController> = Snake::new(0, local("k"), (0, 0, 0));
    assert_eq!(s.next_direction(), Direction::RIGHT);
    s.connect_controller();
    s.disconnect_controller();
    assert_eq!(s.get_info().map(|_| ()), None);
}
