use msweeper::grid::{Space, SpaceState, SpaceType};
use msweeper::msweeper::{changed_cells, BoardError, Msweeper, Outcome, Visual};
use msweeper::point::Point;

fn cells(m: &Msweeper) -> Vec<(usize, usize, Space)> {
    let mut v = Vec::new();
    for y in 0..m.height() {
        for x in 0..m.width() {
            v.push((x, y, m.get(x, y)));
        }
    }
    v
}

fn count_mines(m: &Msweeper) -> usize {
    cells(m).iter().filter(|c| c.2.stype == SpaceType::Mine).count()
}

fn count_opened(m: &Msweeper) -> usize {
    cells(m).iter().filter(|c| c.2.state == SpaceState::Opened).count()
}

fn first_safe_unopened(m: &Msweeper) -> Option<(usize, usize)> {
    cells(m)
        .iter()
        .find(|c| c.2.state == SpaceState::Unopened && c.2.stype == SpaceType::Empty)
        .map(|c| (c.0, c.1))
}

fn mine_position(m: &Msweeper) -> (usize, usize) {
    let c = cells(m).into_iter().find(|c| c.2.stype == SpaceType::Mine).unwrap();
    (c.0, c.1)
}

#[test]
fn construct_fails_when_mines_fill_the_board() {
    match Msweeper::construct(3, 3, 9) {
        Err(e) => assert_eq!(e, BoardError::TooManyMines { width: 3, height: 3, mine_num: 9 }),
        Ok(_) => panic!("a 3x3 board cannot hold 9 mines"),
    }
    assert!(Msweeper::construct(3, 3, 8).is_ok());
    assert!(Msweeper::construct(3, 3, 100).is_err());
}

#[test]
fn construct_fails_on_zero_size() {
    match Msweeper::construct(0, 3, 0) {
        Err(e) => assert_eq!(e, BoardError::InvalidSize { width: 0, height: 3, mine_num: 0 }),
        Ok(_) => panic!("zero width accepted"),
    }
    match Msweeper::construct(4, 0, 1) {
        Err(e) => assert_eq!(e, BoardError::InvalidSize { width: 4, height: 0, mine_num: 1 }),
        Ok(_) => panic!("zero height accepted"),
    }
    assert!(Msweeper::construct(1, 1, 0).is_ok());
}

#[test]
fn fresh_board_is_unopened_and_empty() {
    let m = Msweeper::construct(4, 2, 3).unwrap();
    assert_eq!(m.width(), 4);
    assert_eq!(m.height(), 2);
    assert_eq!(m.mine_num(), 3);
    assert!(!m.started());
    assert_eq!(m.opened_cells(), 0);
    for (_, _, c) in cells(&m) {
        assert_eq!(c, Space { state: SpaceState::Unopened, stype: SpaceType::Empty });
    }
    assert!(!m.is_clear());
}

#[test]
fn get_off_the_board_is_unopened_empty() {
    let m = Msweeper::construct(2, 2, 1).unwrap();
    assert_eq!(m.get(2, 0), Space { state: SpaceState::Unopened, stype: SpaceType::Empty });
    assert_eq!(m.get(0, 7), Space { state: SpaceState::Unopened, stype: SpaceType::Empty });
    assert_eq!(m.visual(9, 9), Visual::Unopened);
}

#[test]
fn first_open_is_safe_and_places_all_mines() {
    for _ in 0..50 {
        let mut m = Msweeper::construct(3, 3, 8).unwrap();
        let r = m.open_cell(0, 2);
        assert_ne!(r, Outcome::MineHit);
        assert!(m.started());
        assert_eq!(count_mines(&m), 8);
        assert_eq!(m.get(0, 2).stype, SpaceType::Empty);
        assert_eq!(r, Outcome::Win);
    }
}

#[test]
fn placement_keeps_the_mine_count_on_larger_boards() {
    for _ in 0..20 {
        let mut m = Msweeper::construct(7, 5, 12).unwrap();
        assert_ne!(m.open_cell(3, 1), Outcome::MineHit);
        assert_eq!(count_mines(&m), 12);
        assert_eq!(m.get(3, 1).state, SpaceState::Opened);
        assert_eq!(m.opened_cells(), count_opened(&m));
    }
}

#[test]
fn shuffle_moves_the_mine_around() {
    let mut seen = std::collections::HashSet::new();
    for _ in 0..60 {
        let mut m = Msweeper::construct(3, 3, 1).unwrap();
        m.open_cell(0, 0);
        seen.insert(mine_position(&m));
    }
    assert!(seen.len() > 1);
    assert!(!seen.contains(&(0, 0)));
}

#[test]
fn single_cell_board_is_won_at_once() {
    let mut m = Msweeper::construct(1, 1, 0).unwrap();
    assert_eq!(m.open_cell(0, 0), Outcome::Win);
    assert_eq!(m.opened_cells(), 1);
    assert!(m.is_clear());
}

#[test]
fn flood_opens_a_board_without_mines_from_any_cell() {
    let mut a = Msweeper::construct(5, 4, 0).unwrap();
    let mut b = Msweeper::construct(5, 4, 0).unwrap();
    assert_eq!(a.open_cell(0, 0), Outcome::Win);
    assert_eq!(b.open_cell(4, 3), Outcome::Win);
    assert_eq!(a.opened_cells(), 20);
    assert_eq!(b.opened_cells(), 20);
    assert_eq!(cells(&a), cells(&b));
}

#[test]
fn flood_stops_at_numbered_cells() {
    for _ in 0..20 {
        let mut m = Msweeper::construct(6, 6, 3).unwrap();
        m.open_cell(2, 2);
        for (x, y, c) in cells(&m) {
            if c.state == SpaceState::Opened {
                assert_eq!(c.stype, SpaceType::Empty);
                assert!(matches!(m.visual(x, y), Visual::Empty(_)));
            }
        }
        assert_eq!(m.opened_cells(), count_opened(&m));
    }
}

#[test]
fn chord_with_fewer_flags_than_mines_does_nothing() {
    let mut m = Msweeper::construct(3, 1, 2).unwrap();
    assert_eq!(m.open_cell(1, 0), Outcome::Win);
    assert_eq!(m.visual(1, 0), Visual::Empty(2));
    m.flag_cell(0, 0);
    let before = cells(&m);
    assert_eq!(m.open_cell(1, 0), Outcome::NoOp);
    assert_eq!(cells(&m), before);
    assert_eq!(m.opened_cells(), 1);
}

#[test]
fn chord_with_a_wrong_flag_hits_the_mine() {
    for _ in 0..20 {
        let mut m = Msweeper::construct(3, 3, 1).unwrap();
        assert_eq!(m.open_cell(1, 1), Outcome::Revealed);
        assert_eq!(m.visual(1, 1), Visual::Empty(1));
        let (mx, my) = mine_position(&m);
        let (fx, fy) = first_safe_unopened(&m).unwrap();
        m.flag_cell(fx, fy);
        assert_eq!(m.open_cell(1, 1), Outcome::MineHit);
        assert_eq!(m.visual(mx, my), Visual::MineFatal);
        assert_eq!(m.get(fx, fy).state, SpaceState::Opened);
        assert_eq!(count_opened(&m), 9);
        assert_eq!(m.get(mx, my).state, SpaceState::Opened);
    }
}

#[test]
fn chord_with_the_right_flag_opens_the_rest() {
    for _ in 0..20 {
        let mut m = Msweeper::construct(3, 3, 1).unwrap();
        m.open_cell(1, 1);
        let (mx, my) = mine_position(&m);
        m.flag_cell(mx, my);
        assert_eq!(m.open_cell(1, 1), Outcome::Win);
        assert_eq!(m.opened_cells(), 8);
        assert!(m.is_clear());
        assert_eq!(m.get(mx, my).state, SpaceState::Flag);
    }
}

#[test]
fn flag_twice_restores_the_cell() {
    let mut m = Msweeper::construct(3, 3, 2).unwrap();
    let before = m.get(1, 2);
    m.flag_cell(1, 2);
    assert_eq!(m.get(1, 2).state, SpaceState::Flag);
    assert_eq!(m.visual(1, 2), Visual::Flagged);
    m.flag_cell(1, 2);
    assert_eq!(m.get(1, 2), before);
}

#[test]
fn flag_leaves_opened_cells_alone() {
    let mut m = Msweeper::construct(3, 3, 8).unwrap();
    m.open_cell(1, 1);
    m.flag_cell(1, 1);
    assert_eq!(m.get(1, 1).state, SpaceState::Opened);
    m.flag_cell(5, 5);
}

#[test]
fn flagged_cell_is_not_opened() {
    let mut m = Msweeper::construct(3, 3, 2).unwrap();
    m.flag_cell(0, 0);
    assert_eq!(m.open_cell(0, 0), Outcome::NoOp);
    assert!(m.started());
    assert_eq!(m.opened_cells(), 0);
    assert_eq!(count_mines(&m), 2);
}

#[test]
fn two_by_two_with_one_mine_is_clear_after_three_opens() {
    for _ in 0..20 {
        let mut m = Msweeper::construct(2, 2, 1).unwrap();
        assert_eq!(m.open_cell(0, 0), Outcome::Revealed);
        assert!(!m.is_clear());
        let (x, y) = first_safe_unopened(&m).unwrap();
        assert_eq!(m.open_cell(x, y), Outcome::Revealed);
        assert!(!m.is_clear());
        assert_eq!(m.opened_cells(), 2);
        let (x, y) = first_safe_unopened(&m).unwrap();
        assert_eq!(m.open_cell(x, y), Outcome::Win);
        assert!(m.is_clear());
        assert_eq!(m.opened_cells(), 3);
    }
}

#[test]
fn opening_a_mine_opens_everything() {
    for _ in 0..20 {
        let mut m = Msweeper::construct(2, 2, 1).unwrap();
        m.open_cell(0, 0);
        let (mx, my) = mine_position(&m);
        assert_eq!(m.open_cell(mx, my), Outcome::MineHit);
        assert_eq!(count_opened(&m), 4);
        assert_eq!(m.opened_cells(), 4);
        assert_eq!(m.visual(mx, my), Visual::MineFatal);
        assert_eq!(m.visual(0, 0), Visual::Empty(1));
    }
}

#[test]
fn clean_resets_and_placement_runs_again() {
    let mut m = Msweeper::construct(3, 3, 4).unwrap();
    m.open_cell(1, 1);
    m.flag_cell(0, 0);
    m.clean();
    assert!(!m.started());
    assert_eq!(m.opened_cells(), 0);
    for (_, _, c) in cells(&m) {
        assert_eq!(c, Space { state: SpaceState::Unopened, stype: SpaceType::Empty });
    }
    assert_ne!(m.open_cell(2, 2), Outcome::MineHit);
    assert!(m.started());
    assert_eq!(count_mines(&m), 4);
    assert_eq!(m.get(2, 2).stype, SpaceType::Empty);
}

#[test]
fn screen_positions_map_to_cells() {
    let m = Msweeper::construct(4, 3, 1).unwrap();
    let p = m.board_press_pos(3, 3).unwrap();
    assert_eq!((p.x, p.y), (0, 0));
    let p = m.board_press_pos(4, 3).unwrap();
    assert_eq!((p.x, p.y), (0, 0));
    let p = m.board_press_pos(5, 4).unwrap();
    assert_eq!((p.x, p.y), (1, 1));
    let p = m.board_press_pos(10, 5).unwrap();
    assert_eq!((p.x, p.y), (3, 2));
    assert!(m.board_press_pos(2, 3).is_none());
    assert!(m.board_press_pos(3, 2).is_none());
    assert!(m.board_press_pos(11, 3).is_none());
    assert!(m.board_press_pos(3, 6).is_none());
}

#[test]
fn open_and_flag_by_screen_position() {
    let mut m = Msweeper::construct(3, 3, 8).unwrap();
    assert!(!m.open(0, 0));
    assert!(!m.started());
    assert!(!m.open(7, 4));
    assert!(m.started());
    assert_eq!(m.get(2, 1).state, SpaceState::Opened);
    m.flag(3, 3);
    assert_eq!(m.get(0, 0).state, SpaceState::Flag);
    m.flag(1, 1);
    assert_eq!(m.get(0, 0).state, SpaceState::Flag);
}

#[test]
fn open_by_screen_position_reports_a_mine() {
    for _ in 0..20 {
        let mut m = Msweeper::construct(2, 2, 3).unwrap();
        assert!(!m.open(3, 3));
        let (mx, my) = mine_position(&m);
        assert!(m.open(3 + 2 * mx, 3 + my));
    }
}

#[test]
fn neighbours_follow_the_fixed_order() {
    let p = Point::<isize> { x: 5, y: 7 };
    let expected = [(4, 6), (5, 6), (6, 6), (4, 7), (6, 7), (4, 8), (5, 8), (6, 8)];
    let dirs = Point::pos8_iter();
    assert_eq!((dirs.start, dirs.end), (0, 8));
    for d in dirs {
        let n = p.get_pos_8(d);
        assert_eq!((n.x, n.y), expected[d as usize]);
    }
    let same = p.get_pos_8(9);
    assert_eq!((same.x, same.y), (5, 7));
}

#[test]
fn point_conversions() {
    let p = Point::<usize> { x: 3, y: 9 };
    let q = p.utoi();
    assert_eq!((q.x, q.y), (3, 9));
    let r = q.itou();
    assert!(r.is_equal(&p));
    assert!(!r.is_equal(&Point { x: 9, y: 3 }));
}

#[test]
fn flags_survive_the_first_open() {
    for _ in 0..20 {
        let mut m = Msweeper::construct(3, 1, 1).unwrap();
        m.flag_cell(2, 0);
        assert_ne!(m.open_cell(0, 0), Outcome::MineHit);
        assert_eq!(m.get(2, 0).state, SpaceState::Flag);
        assert_eq!(count_mines(&m), 1);
    }
}

#[test]
fn flags_do_not_change_the_mine_count() {
    for _ in 0..20 {
        let mut m = Msweeper::construct(4, 4, 5).unwrap();
        m.flag_cell(0, 0);
        m.flag_cell(3, 3);
        m.flag_cell(1, 2);
        m.open_cell(2, 1);
        assert_eq!(count_mines(&m), 5);
        assert_eq!(m.get(0, 0).state, SpaceState::Flag);
        assert_eq!(m.get(3, 3).state, SpaceState::Flag);
        assert_eq!(m.get(1, 2).state, SpaceState::Flag);
    }
}

#[test]
fn mine_free_four_by_four_is_clear_after_one_open() {
    let mut m = Msweeper::construct(4, 4, 0).unwrap();
    assert!(!m.open(3, 3));
    assert_eq!(m.opened_cells(), 16);
    assert_eq!(count_opened(&m), 16);
    assert!(m.is_clear());
}

#[test]
fn clean_board_is_not_clear() {
    let mut m = Msweeper::construct(1, 1, 0).unwrap();
    m.open_cell(0, 0);
    assert!(m.is_clear());
    m.clean();
    assert!(!m.is_clear());
    assert_eq!(m.width(), 1);
    assert_eq!(m.height(), 1);
}

#[test]
fn neighbour_in_an_unknown_direction_is_the_point_itself() {
    let p = Point::<isize> { x: isize::MAX, y: isize::MIN };
    let q = p.get_pos_8(8);
    assert_eq!((q.x, q.y), (isize::MAX, isize::MIN));
    let q = p.get_pos_8(-1);
    assert_eq!((q.x, q.y), (isize::MAX, isize::MIN));
}

#[test]
fn changed_cells_lists_each_difference_in_reading_order() {
    let mut m = Msweeper::construct(3, 3, 8).unwrap();
    let before = m.visuals();
    assert!(changed_cells(&before, &m.visuals()).is_empty());
    m.open_cell(1, 1);
    let changes = changed_cells(&before, &m.visuals());
    assert_eq!(changes, vec![(1, 1, Visual::Empty(8))]);
    let before = m.visuals();
    m.flag_cell(2, 0);
    m.flag_cell(0, 2);
    let changes = changed_cells(&before, &m.visuals());
    assert_eq!(changes, vec![(2, 0, Visual::Flagged), (0, 2, Visual::Flagged)]);
}

#[test]
fn changed_cells_after_a_loss_lists_every_cell_that_changed() {
    let mut m = Msweeper::construct(2, 2, 3).unwrap();
    m.open_cell(0, 0);
    let before = m.visuals();
    let (mx, my) = mine_position(&m);
    m.open_cell(mx, my);
    let changes = changed_cells(&before, &m.visuals());
    assert_eq!(changes.len(), 3);
    assert!(changes.contains(&(mx, my, Visual::MineFatal)));
    assert!(changes.iter().all(|c| c.0 != 0 || c.1 != 0));
}
