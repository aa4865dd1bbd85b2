use wave_function_collapse::board::Board;
use wave_function_collapse::constraints::find_tile;
use wave_function_collapse::playground::{
    ResultPanel, RowMove, SettingsKey, SettingsPanel, SettingsPanelState, HEIGHT_INDEX, SEED_INDEX, WEIGHTS_INDEX,
    WIDTH_INDEX,
};
use wave_function_collapse::{ArrayCell, BitCell, Cell, Constraint, Position, PossibleNeighbours, Random, TileConstraints, TileSet, WfcError};

#[test]
fn cell_starts_with_every_tile() {
    let cell = Cell::new(5);
    assert_eq!(cell.entropy(), 5);
    assert_eq!(cell.get_possible_indices(), &[0, 1, 2, 3, 4]);
    assert!(!cell.is_collapsed());
    assert_eq!(Cell::new(0).entropy(), 0);
    assert_eq!(Cell::new(128).entropy(), 128);
}

#[test]
fn cell_collapse_keeps_one_tile() {
    let mut cell = Cell::new(4);
    cell.collapse(2);
    assert!(cell.is_collapsed());
    assert_eq!(cell.entropy(), 1);
    assert_eq!(cell.get_collapsed_index(), 2);
    assert_eq!(cell.get_possible_indices(), &[2]);
}

#[test]
fn cell_set_indices_sorts_and_drops_repeats() {
    let mut cell = Cell::new(10);
    cell.set_indices(&[7, 3, 7, 1, 3, 200]);
    assert_eq!(cell.get_possible_indices(), &[1, 3, 7, 200]);
    assert_eq!(cell.entropy(), 4);
    cell.set_indices(&[]);
    assert_eq!(cell.entropy(), 0);
}

#[test]
fn neighbours_in_fixed_order() {
    let n = Position::new(3, -2).cardinal_neighbours();
    assert_eq!(n, [Position::new(2, -2), Position::new(4, -2), Position::new(3, -3), Position::new(3, -1)]);
}

#[test]
fn find_tile_takes_first_match() {
    assert_eq!(find_tile(&['a', 'b', 'a'], &'a'), Some(0));
    assert_eq!(find_tile(&['a', 'b', 'a'], &'b'), Some(1));
    assert_eq!(find_tile(&['a', 'b'], &'z'), None);
}

#[test]
fn possible_neighbours_is_symmetric() {
    let tiles = ['w', 's', 'f'];
    let pn = PossibleNeighbours::new(&[('w', 's'), ('s', 'f')], &tiles);
    let here = Position::new(0, 0);
    let only_w: &[u8] = &[0];
    let only_f: &[u8] = &[2];
    let s_or_f: &[u8] = &[1, 2];
    // 's' next to 'w' (pair given the other way round) and next to 'f'.
    assert!(pn.valid((1, here), &[(only_w, Position::new(1, 0)), (only_f, Position::new(0, 1))], &tiles));
    // 'w' next to 'f' is not allowed.
    assert!(!pn.valid((0, here), &[(only_f, Position::new(1, 0))], &tiles));
    // One compatible tile in each neighbour is enough.
    assert!(pn.valid((0, here), &[(s_or_f, Position::new(1, 0))], &tiles));
    // No neighbours: nothing to contradict.
    assert!(pn.valid((0, here), &[], &tiles));
}

#[test]
fn update_cell_keeps_accepted_tiles_in_order() {
    let tiles = ['w', 's', 'f'];
    let mut cs = TileConstraints::new();
    cs.add_constraint(PossibleNeighbours::new(&[('w', 'w'), ('w', 's'), ('s', 's'), ('s', 'f'), ('f', 'f')], &tiles));
    let only_f: &[u8] = &[2];
    let r = cs.update_cell(&[0, 1, 2], Position::new(1, 1), &[(only_f, Position::new(0, 1))], &tiles);
    assert_eq!(r, vec![1, 2]);
    let empty: TileConstraints<PossibleNeighbours> = TileConstraints::default();
    assert_eq!(empty.update_cell(&[0, 2], Position::new(0, 0), &[(only_f, Position::new(1, 0))], &tiles), vec![0, 2]);
}

#[test]
fn board_min_entropy_and_collapse() {
    let mut board = Board::<Cell>::new(3, 2, 3);
    assert!(!board.collapsed());
    assert_eq!(board.get_min_entropy_position(), Some(Position::new(0, 0)));
    board.collapse_position(Position::new(0, 0), 1);
    assert_eq!(board.get_cell(Position::new(0, 0)).get_possible_indices(), &[1]);
    assert_eq!(board.get_min_entropy_position(), Some(Position::new(1, 0)));
    assert!(board.pos_in_bounds(Position::new(2, 1)));
    assert!(!board.pos_in_bounds(Position::new(3, 0)));
    assert!(!board.pos_in_bounds(Position::new(0, -1)));
}

#[test]
fn board_propagates_through_chain() {
    // Tiles 0..3 where only equal tiles may touch: fixing one end fixes the row.
    let tiles = [0u8, 1, 2];
    let mut cs = TileConstraints::new();
    cs.add_constraint(PossibleNeighbours::new(&[(0, 0), (1, 1), (2, 2)], &tiles));
    let mut board = Board::<Cell>::new(4, 1, 3);
    board.collapse_position(Position::new(0, 0), 2);
    assert_eq!(board.propagate(Position::new(0, 0), &cs, &tiles), Ok(()));
    assert!(board.collapsed());
    assert_eq!(board.get_min_entropy_position(), None);
    let all = board.get_collapsed_indices();
    assert_eq!(
        all,
        vec![(Position::new(0, 0), 2), (Position::new(1, 0), 2), (Position::new(2, 0), 2), (Position::new(3, 0), 2)]
    );
}

#[test]
fn board_propagation_reports_contradiction() {
    let tiles = [0u8, 1];
    let mut cs = TileConstraints::new();
    cs.add_constraint(PossibleNeighbours::new(&[(0, 0), (1, 1)], &tiles));
    let mut board = Board::<Cell>::new(1, 3, 2);
    board.collapse_position(Position::new(0, 0), 0);
    board.collapse_position(Position::new(0, 2), 1);
    assert_eq!(board.propagate(Position::new(0, 0), &cs, &tiles), Err(WfcError::CellHasZeroEntropy(Position::new(0, 1))));
}

#[test]
fn random_choice_follows_weights() {
    let mut random = Random::from_seed(17u64);
    assert_eq!(random.choose_weighted(&[0, 0], &['a', 'b']), None);
    assert_eq!(random.choose_weighted(&[], &[] as &[char]), None);
    for _ in 0..100 {
        assert_eq!(random.choose_weighted(&[0, 5, 0], &['a', 'b', 'c']), Some('b'));
    }
    let mut entropy_seeded = Random::new();
    assert_eq!(entropy_seeded.choose_weighted(&[1], &[9u8]), Some(9));
}

#[test]
fn settings_panel_edits_selected_row() {
    let base = SettingsPanelState { selected: true, width: 20, height: 5, weights_dialog_open: false, seed_dialog_open: false };
    let mut s = base;
    assert_eq!(SettingsPanel::handle_key_input(SettingsKey::Right, Some(WIDTH_INDEX), &mut s), RowMove::Stay);
    assert_eq!(s.width, 21);
    SettingsPanel::handle_key_input(SettingsKey::Left, Some(HEIGHT_INDEX), &mut s);
    assert_eq!(s.height, 4);
    let mut zero = SettingsPanelState { width: 0, ..base };
    SettingsPanel::handle_key_input(SettingsKey::Left, Some(WIDTH_INDEX), &mut zero);
    assert_eq!(zero.width, 0);
    assert_eq!(SettingsPanel::handle_key_input(SettingsKey::Up, Some(1), &mut s), RowMove::Previous);
    assert_eq!(SettingsPanel::handle_key_input(SettingsKey::Down, None, &mut s), RowMove::Next);
    SettingsPanel::handle_key_input(SettingsKey::Space, Some(SEED_INDEX), &mut s);
    assert!(s.seed_dialog_open && !s.weights_dialog_open);
    let before = s;
    assert_eq!(SettingsPanel::handle_key_input(SettingsKey::Down, Some(0), &mut s), RowMove::Stay);
    assert_eq!(s, before);
    let mut w = base;
    SettingsPanel::handle_key_input(SettingsKey::Space, Some(WEIGHTS_INDEX), &mut w);
    assert!(w.weights_dialog_open);
    let mut unfocused = SettingsPanelState { selected: false, ..base };
    SettingsPanel::handle_key_input(SettingsKey::Right, Some(WIDTH_INDEX), &mut unfocused);
    assert_eq!(unfocused.width, 20);
}

#[test]
fn result_panel_finds_tile_by_position() {
    let collapsed = vec![(Position::new(0, 0), 'a'), (Position::new(1, 0), 'b'), (Position::new(1, 0), 'c')];
    assert_eq!(ResultPanel::tile_at(&collapsed, 1, 0), Some('b'));
    assert_eq!(ResultPanel::tile_at(&collapsed, 0, 0), Some('a'));
    assert_eq!(ResultPanel::tile_at(&collapsed, 0, 1), None);
}

#[test]
fn bit_cell_matches_list_cell() {
    let cell = BitCell::new(128);
    assert_eq!(cell.entropy(), 128);
    assert_eq!(cell.get_possible_indices(), (0..128).collect::<Vec<u8>>());
    let mut small = BitCell::new(3);
    assert_eq!(small.get_possible_indices(), vec![0, 1, 2]);
    assert!(!small.is_collapsed());
    small.set_indices(&[9, 4, 9, 127]);
    assert_eq!(small.get_possible_indices(), vec![4, 9, 127]);
    assert_eq!(small.entropy(), 3);
    small.collapse(77);
    assert!(small.is_collapsed());
    assert_eq!(small.get_collapsed_index(), 77);
    assert_eq!(BitCell::new(0).entropy(), 0);
}

#[test]
fn board_works_with_bit_cells() {
    let tiles = [0u8, 1, 2];
    let mut cs = TileConstraints::new();
    cs.add_constraint(PossibleNeighbours::new(&[(0, 0), (1, 1), (2, 2)], &tiles));
    let mut board = Board::<BitCell>::new(3, 1, 3);
    board.collapse_position(Position::new(2, 0), 1);
    assert_eq!(board.propagate(Position::new(2, 0), &cs, &tiles), Ok(()));
    assert!(board.collapsed());
    assert_eq!(board.get_cell(Position::new(0, 0)).get_possible_indices(), vec![1]);
}

#[test]
fn array_cell_through_tile_set() {
    let full = ArrayCell::full(5);
    assert_eq!(full.count(), 5);
    assert_eq!(full.tile_list(), vec![0, 1, 2, 3, 4]);
    let single = ArrayCell::single(9);
    assert_eq!(single.tile_list(), vec![9]);
    let some = ArrayCell::from_ascending(&[2, 5, 127]);
    assert_eq!(some.count(), 3);
    assert_eq!(some.tile_list(), vec![2, 5, 127]);
    assert_eq!(ArrayCell::full(128).count(), 128);
    assert_eq!(BitCell::from_ascending(&[1, 3]).tile_list(), vec![1, 3]);
    assert_eq!(Cell::single(4).tile_list(), vec![4]);
}

fn coast_constraints() -> (TileConstraints<PossibleNeighbours>, [char; 3]) {
    let tiles = ['w', 's', 'f'];
    let mut cs = TileConstraints::new();
    cs.add_constraint(PossibleNeighbours::new(&[('w', 'w'), ('w', 's'), ('s', 's'), ('s', 'f'), ('f', 'f')], &tiles));
    (cs, tiles)
}

fn snapshot(board: &Board<Cell>, w: isize, h: isize) -> Vec<Vec<u8>> {
    let mut out = vec![];
    for y in 0..h {
        for x in 0..w {
            out.push(board.get_cell(Position::new(x, y)).get_possible_indices().to_vec());
        }
    }
    out
}

#[test]
fn propagation_only_shrinks_cells() {
    let (cs, tiles) = coast_constraints();
    let mut board = Board::<Cell>::new(4, 4, 3);
    board.collapse_position(Position::new(1, 1), 2);
    let before = snapshot(&board, 4, 4);
    assert_eq!(board.propagate(Position::new(1, 1), &cs, &tiles), Ok(()));
    let after = snapshot(&board, 4, 4);
    let mut shrunk = 0;
    for (a, b) in after.iter().zip(before.iter()) {
        assert!(!a.is_empty());
        assert!(a.iter().all(|t| b.contains(t)));
        if a.len() < b.len() {
            shrunk += 1;
        }
    }
    // The four neighbours of the forest lose water.
    assert_eq!(shrunk, 4);
    assert_eq!(board.get_cell(Position::new(0, 1)).get_possible_indices(), &[1, 2]);
    assert_eq!(board.get_cell(Position::new(3, 3)).get_possible_indices(), &[0, 1, 2]);
}

#[test]
fn non_collapsed_positions_match_entropy() {
    let (cs, tiles) = coast_constraints();
    let mut board = Board::<Cell>::new(2, 2, 3);
    for (p, t) in [(Position::new(0, 0), 0u8), (Position::new(1, 1), 2u8)] {
        board.collapse_position(p, t);
        assert_eq!(board.propagate(p, &cs, &tiles), Ok(()));
    }
    // Water and forest on a diagonal force sand on the other diagonal.
    assert!(board.collapsed());
    assert_eq!(board.get_min_entropy_position(), None);
    assert_eq!(board.get_cell(Position::new(1, 0)).get_possible_indices(), &[1]);
    let mut partial = Board::<Cell>::new(3, 1, 3);
    partial.collapse_position(Position::new(0, 0), 0);
    assert_eq!(partial.propagate(Position::new(0, 0), &cs, &tiles), Ok(()));
    assert!(!partial.collapsed());
    assert_eq!(partial.get_min_entropy_position(), Some(Position::new(1, 0)));
    assert_eq!(partial.get_cell(Position::new(1, 0)).entropy(), 2);
}
