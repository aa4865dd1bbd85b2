use wave_function_collapse::{ArrayCell, BitCell, Position, PossibleNeighbours, WfcBuilder, WfcError};

#[derive(Clone, Copy, Debug, PartialEq, Eq)]
enum Tile {
    Water,
    Sand,
    Forest,
}

use Tile::{Forest, Sand, Water};

fn coastline_pairs() -> Vec<(Tile, Tile)> {
    vec![
        (Water, Water),
        (Water, Sand),
        (Sand, Water),
        (Sand, Sand),
        (Sand, Forest),
        (Forest, Forest),
    ]
}

fn allowed(a: Tile, b: Tile) -> bool {
    coastline_pairs().iter().any(|&(x, y)| (x == a && y == b) || (x == b && y == a))
}

fn coastline(width: usize, height: usize, seed: u64) -> WfcBuilder<Tile, PossibleNeighbours> {
    let tiles = vec![Water, Sand, Forest];
    let neighbours = PossibleNeighbours::new(&coastline_pairs(), &tiles);
    WfcBuilder::new(width, height, tiles)
        .with_constraint(neighbours)
        .with_weights(vec![1, 1, 1])
        .with_seed(seed)
}

fn tile_at(result: &[(Position, Tile)], x: isize, y: isize) -> Tile {
    result.iter().find(|(p, _)| p.x == x && p.y == y).unwrap().1
}

fn assert_adjacency(result: &[(Position, Tile)], width: isize, height: isize) {
    for y in 0..height {
        for x in 0..width {
            let t = tile_at(result, x, y);
            if x + 1 < width {
                assert!(allowed(t, tile_at(result, x + 1, y)));
            }
            if y + 1 < height {
                assert!(allowed(t, tile_at(result, x, y + 1)));
            }
        }
    }
}

#[test]
fn three_tile_coastline() {
    let result = coastline(50, 50, 42).build().unwrap().collapse().unwrap();
    assert_eq!(result.len(), 2500);
    for (k, (p, t)) in result.iter().enumerate() {
        assert_eq!(p.x, (k % 50) as isize);
        assert_eq!(p.y, (k / 50) as isize);
        assert!(matches!(t, Water | Sand | Forest));
    }
    assert_adjacency(&result, 50, 50);
    let again = coastline(50, 50, 42).build().unwrap().collapse().unwrap();
    assert_eq!(result, again);
}

#[test]
fn same_inputs_give_same_collapse() {
    let a = coastline(12, 9, 7).build().unwrap().collapse().unwrap();
    let b = coastline(12, 9, 7).build().unwrap().collapse().unwrap();
    assert_eq!(a, b);
    let s1 = WfcBuilder::<&str, PossibleNeighbours>::new(6, 6, vec!["a", "b", "c"])
        .with_seed("some text seed")
        .build()
        .unwrap()
        .collapse()
        .unwrap();
    let s2 = WfcBuilder::<&str, PossibleNeighbours>::new(6, 6, vec!["a", "b", "c"])
        .with_seed("some text seed")
        .build()
        .unwrap()
        .collapse()
        .unwrap();
    assert_eq!(s1, s2);
}

#[test]
fn contradiction_forced_between_seeds() {
    let tiles = vec!['A', 'B'];
    let neighbours = PossibleNeighbours::new(&[('A', 'A'), ('B', 'B')], &tiles);
    let mut wfc = WfcBuilder::new(3, 1, tiles).with_constraint(neighbours).with_seed(1u8).build().unwrap();
    let r = wfc.collapse_tiles(vec![(Position::new(0, 0), 'A'), (Position::new(2, 0), 'B')]);
    assert_eq!(r, Err(WfcError::CellHasZeroEntropy(Position::new(1, 0))));
}

#[test]
fn weighted_bias() {
    let mut x_count = 0u32;
    for seed in 0..10_000u32 {
        let result = WfcBuilder::<char, PossibleNeighbours>::new(1, 1, vec!['X', 'Y'])
            .with_weights(vec![3, 1])
            .with_seed(seed)
            .build()
            .unwrap()
            .collapse()
            .unwrap();
        assert_eq!(result.len(), 1);
        if result[0].1 == 'X' {
            x_count += 1;
        }
    }
    let share = x_count as f64 / 10_000.0;
    assert!((share - 0.75).abs() < 0.03, "share of X was {share}");
}

#[test]
fn capacity_error() {
    let tiles: Vec<u32> = (0..200).collect();
    let r = WfcBuilder::<u32, PossibleNeighbours>::new(4, 4, tiles).build_with::<BitCell>();
    assert!(matches!(r, Err(WfcError::TooManyTiles { max: 128, was: 200 })));
    let list = WfcBuilder::<u32, PossibleNeighbours>::new(4, 4, (0..129).collect()).build();
    assert!(matches!(list, Err(WfcError::TooManyTiles { max: 128, was: 129 })));
    let fits = WfcBuilder::<u32, PossibleNeighbours>::new(2, 2, (0..128).collect()).build_with::<BitCell>();
    assert!(fits.is_ok());
}

#[test]
fn both_cell_representations_agree() {
    let list = coastline(20, 15, 99).build().unwrap().collapse().unwrap();
    let bits = coastline(20, 15, 99).build_with::<BitCell>().unwrap().collapse().unwrap();
    assert_eq!(list, bits);
    let array = coastline(20, 15, 99).build_with::<ArrayCell>().unwrap().collapse().unwrap();
    assert_eq!(list, array);
}

#[test]
fn pre_seeding_respected() {
    let mut wfc = coastline(5, 5, 3).build().unwrap();
    wfc.collapse_tiles(vec![(Position::new(2, 2), Forest)]).unwrap();
    let result = wfc.collapse().unwrap();
    assert_eq!(result.len(), 25);
    assert_eq!(tile_at(&result, 2, 2), Forest);
    for (x, y) in [(1, 2), (3, 2), (2, 1), (2, 3)] {
        assert_ne!(tile_at(&result, x, y), Water);
    }
    assert_adjacency(&result, 5, 5);
}

#[test]
fn pre_seeding_keeps_every_seed() {
    let mut wfc = coastline(6, 4, 11).build().unwrap();
    let seeds = vec![
        (Position::new(0, 0), Water),
        (Position::new(5, 3), Forest),
        (Position::new(3, 1), Sand),
        (Position::new(0, 0), Sand),
    ];
    wfc.collapse_tiles(seeds).unwrap();
    let result = wfc.collapse().unwrap();
    assert_eq!(tile_at(&result, 0, 0), Sand);
    assert_eq!(tile_at(&result, 5, 3), Forest);
    assert_eq!(tile_at(&result, 3, 1), Sand);
}

#[test]
fn empty_allowed_set() {
    let tiles = vec!['A', 'B'];
    let neighbours = PossibleNeighbours::new(&[], &tiles);
    let r = WfcBuilder::new(3, 3, tiles).with_constraint(neighbours).with_seed(5u64).build().unwrap().collapse();
    assert_eq!(r, Err(WfcError::CellHasZeroEntropy(Position::new(1, 0))));
}

#[test]
fn unconstrained_board_collapses_fully() {
    let result = WfcBuilder::<u8, PossibleNeighbours>::new(4, 3, vec![10, 20, 30, 40])
        .with_seed(9u16)
        .build()
        .unwrap()
        .collapse()
        .unwrap();
    assert_eq!(result.len(), 12);
    for (k, (p, t)) in result.iter().enumerate() {
        assert_eq!(*p, Position::new((k % 4) as isize, (k / 4) as isize));
        assert!([10, 20, 30, 40].contains(t));
    }
}

#[test]
fn empty_board_collapses_to_nothing() {
    let result = WfcBuilder::<u8, PossibleNeighbours>::new(0, 5, vec![1, 2]).build().unwrap().collapse().unwrap();
    assert!(result.is_empty());
}

#[test]
fn invalid_weights_are_rejected() {
    let wrong_length = WfcBuilder::<char, PossibleNeighbours>::new(2, 2, vec!['a', 'b']).with_weights(vec![1]).build();
    assert!(matches!(wrong_length, Err(WfcError::InvalidWeights)));
    let all_zero = WfcBuilder::<char, PossibleNeighbours>::new(2, 2, vec!['a', 'b']).with_weights(vec![0, 0]).build();
    assert!(matches!(all_zero, Err(WfcError::InvalidWeights)));
    let overflowing = WfcBuilder::<char, PossibleNeighbours>::new(2, 2, vec!['a', 'b'])
        .with_weights(vec![u32::MAX, 1])
        .build();
    assert!(matches!(overflowing, Err(WfcError::InvalidWeights)));
    let no_tiles = WfcBuilder::<char, PossibleNeighbours>::new(2, 2, vec![]).build();
    assert!(matches!(no_tiles, Err(WfcError::InvalidWeights)));
}

#[test]
fn zero_weight_choice_fails() {
    let tiles = vec!['A', 'B', 'C'];
    let neighbours = PossibleNeighbours::new(&[('A', 'B'), ('A', 'C')], &tiles);
    let r = WfcBuilder::new(2, 1, tiles)
        .with_constraint(neighbours)
        .with_weights(vec![1, 0, 0])
        .with_seed(0u8)
        .build()
        .unwrap()
        .collapse();
    assert_eq!(r, Err(WfcError::InvalidWeights));
}

#[test]
fn zero_weight_tile_is_never_drawn() {
    for seed in 0..200u32 {
        let result = WfcBuilder::<char, PossibleNeighbours>::new(3, 3, vec!['x', 'y'])
            .with_weights(vec![0, 4])
            .with_seed(seed)
            .build()
            .unwrap()
            .collapse()
            .unwrap();
        assert!(result.iter().all(|(_, t)| *t == 'y'));
    }
}

#[test]
fn seeds_are_checked_before_any_change() {
    let mut wfc = coastline(3, 3, 2).build().unwrap();
    let out = wfc.collapse_tiles(vec![(Position::new(1, 1), Sand), (Position::new(3, 0), Water)]);
    assert_eq!(out, Err(WfcError::PositionOutOfBounds(Position::new(3, 0))));
    let negative = wfc.collapse_tiles(vec![(Position::new(-1, 0), Water)]);
    assert_eq!(negative, Err(WfcError::PositionOutOfBounds(Position::new(-1, 0))));

    let tiles = vec![Water, Sand];
    let neighbours = PossibleNeighbours::new(&[(Water, Sand)], &tiles);
    let mut small = WfcBuilder::new(2, 2, tiles).with_constraint(neighbours).build().unwrap();
    let unknown = small.collapse_tiles(vec![(Position::new(0, 0), Forest)]);
    assert_eq!(unknown, Err(WfcError::UnknownTile));
}

#[test]
fn single_tile_board_needs_no_draw() {
    let tiles = vec!['A'];
    let neighbours = PossibleNeighbours::new(&[('A', 'A')], &tiles);
    let result = WfcBuilder::new(3, 2, tiles).with_constraint(neighbours).with_weights(vec![0]).build();
    assert!(matches!(result, Err(WfcError::InvalidWeights)));
    let tiles = vec!['A'];
    let neighbours = PossibleNeighbours::new(&[('A', 'A')], &tiles);
    let result = WfcBuilder::new(3, 2, tiles).with_constraint(neighbours).build().unwrap().collapse().unwrap();
    assert_eq!(result.len(), 6);
    assert!(result.iter().all(|(_, t)| *t == 'A'));
}
