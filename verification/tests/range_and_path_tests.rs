use sgf_render::board_side::{parse_board_sides, BoardSide};
use sgf_render::goban::{Goban, Stone, StoneColor};
use sgf_render::goban_range::{GobanRange, MakeSvgOptions};
use sgf_render::node_description::{normalize_steps, Step};
use sgf_render::sgf::{GameNode, Prop};
use sgf_render::text::TileSet;
use sgf_render::GobanError;

fn all_markup_options() -> MakeSvgOptions {
    MakeSvgOptions {
        draw_marks: true,
        draw_triangles: true,
        draw_circles: true,
        draw_squares: true,
        draw_selected: true,
        draw_dimmed: true,
        draw_labels: true,
        draw_lines: true,
        draw_arrows: true,
    }
}

#[test]
fn normalize_merges_consecutive_advances() {
    let steps = vec![Step::Advance(1), Step::Advance(1)];
    assert_eq!(normalize_steps(&steps), vec![Step::Advance(2)]);
}

#[test]
fn normalize_rewrites_first_child_descent() {
    let steps = vec![Step::Variation(0)];
    assert_eq!(normalize_steps(&steps), vec![Step::Advance(1)]);
}

#[test]
fn normalize_mixed_path() {
    let steps = vec![
        Step::Advance(2),
        Step::Variation(0),
        Step::Advance(3),
        Step::Variation(2),
        Step::Last,
    ];
    assert_eq!(
        normalize_steps(&steps),
        vec![Step::Advance(6), Step::Variation(2), Step::Last]
    );
}

#[test]
fn full_board_range() {
    let g = Goban::new((9, 13));
    let r = GobanRange::FullBoard
        .get_ranges(&g, &all_markup_options())
        .unwrap();
    assert_eq!(r, ((0, 9), (0, 13)));
}

#[test]
fn explicit_range_is_validated() {
    let g = Goban::new((9, 9));
    let ok = GobanRange::Ranged((1, 7), (0, 5)).get_ranges(&g, &all_markup_options());
    assert_eq!(ok.unwrap(), ((1, 7), (0, 5)));
    let bad = GobanRange::Ranged((0, 10), (0, 5)).get_ranges(&g, &all_markup_options());
    assert!(matches!(bad, Err(GobanError::InvalidRange)));
}

#[test]
fn shrink_wrap_empty_board_falls_back_to_full_board() {
    let g = Goban::new((9, 9));
    let r = GobanRange::ShrinkWrap
        .get_ranges(&g, &all_markup_options())
        .unwrap();
    assert_eq!(r, ((0, 9), (0, 9)));
}

#[test]
fn shrink_wrap_pads_and_snaps_to_edges() {
    let mut g = Goban::new((19, 19));
    g.add_stone(Stone::new(4, 5, StoneColor::Black)).unwrap();
    g.add_stone(Stone::new(6, 5, StoneColor::White)).unwrap();
    let r = GobanRange::ShrinkWrap
        .get_ranges(&g, &all_markup_options())
        .unwrap();
    // One point of padding on each side.
    assert_eq!(r, ((3, 8), (4, 7)));
}

#[test]
fn shrink_wrap_snaps_single_cell_gap() {
    let mut g = Goban::new((9, 9));
    // A stone at (2, 2): padding would leave a one-cell gap at the low
    // edges, so both snap to the boundary.
    g.add_stone(Stone::new(2, 2, StoneColor::Black)).unwrap();
    let r = GobanRange::ShrinkWrap
        .get_ranges(&g, &all_markup_options())
        .unwrap();
    assert_eq!(r, ((0, 4), (0, 4)));
}

#[test]
fn shrink_wrap_ignores_dimmed_points() {
    let mut g = Goban::new((19, 19));
    g.add_stone(Stone::new(9, 9, StoneColor::Black)).unwrap();
    let node = GameNode {
        properties: vec![Prop::DD(vec![(0, 0)])],
        children: vec![],
    };
    g.process_node(&node).unwrap();
    let r = GobanRange::ShrinkWrap
        .get_ranges(&g, &all_markup_options())
        .unwrap();
    assert_eq!(r, ((8, 11), (8, 11)));
}

#[test]
fn shrink_wrap_covers_enabled_markup() {
    let mut g = Goban::new((19, 19));
    g.add_stone(Stone::new(9, 9, StoneColor::Black)).unwrap();
    let node = GameNode {
        properties: vec![Prop::MA(vec![(13, 9)])],
        children: vec![],
    };
    g.process_node(&node).unwrap();
    let with = GobanRange::ShrinkWrap
        .get_ranges(&g, &all_markup_options())
        .unwrap();
    assert_eq!(with, ((8, 15), (8, 11)));
    let mut without_marks = all_markup_options();
    without_marks.draw_marks = false;
    let without = GobanRange::ShrinkWrap
        .get_ranges(&g, &without_marks)
        .unwrap();
    assert_eq!(without, ((8, 11), (8, 11)));
}

#[test]
fn board_sides_parse_letters() {
    let set = parse_board_sides(&vec!['n', 'w']).unwrap();
    assert!(set.contains(BoardSide::North));
    assert!(set.contains(BoardSide::West));
    assert!(!set.contains(BoardSide::East));
    assert!(!set.contains(BoardSide::South));
    assert!(!set.is_empty());
    assert!(parse_board_sides(&vec!['x']).is_err());
    assert!(parse_board_sides(&vec![]).unwrap().is_empty());
}

#[test]
fn tileset_needs_eleven_glyphs() {
    let good: Vec<char> = "OX++++-|-|.".chars().collect();
    assert!(TileSet::from_chars(&good).is_ok());
    let bad: Vec<char> = "OX".chars().collect();
    assert!(TileSet::from_chars(&bad).is_err());
}

#[test]
fn tileset_picks_glyphs_by_position() {
    let tiles: Vec<char> = "OX123456789".chars().collect();
    let ts = TileSet::from_chars(&tiles).unwrap();
    let mut g = Goban::new((9, 9));
    g.add_stone(Stone::new(4, 4, StoneColor::White)).unwrap();
    g.add_stone(Stone::new(5, 5, StoneColor::Black)).unwrap();
    assert_eq!(ts.char_at(&g, 4, 4), 'O');
    assert_eq!(ts.char_at(&g, 5, 5), 'X');
    assert_eq!(ts.char_at(&g, 0, 0), '1');
    assert_eq!(ts.char_at(&g, 8, 0), '2');
    assert_eq!(ts.char_at(&g, 0, 8), '3');
    assert_eq!(ts.char_at(&g, 8, 8), '4');
    assert_eq!(ts.char_at(&g, 3, 0), '5');
    assert_eq!(ts.char_at(&g, 0, 3), '6');
    assert_eq!(ts.char_at(&g, 3, 8), '7');
    assert_eq!(ts.char_at(&g, 8, 3), '8');
    assert_eq!(ts.char_at(&g, 3, 3), '9');
}

#[test]
fn resolve_follows_steps() {
    // Root with a two-node main line and a fork at the root.
    let fork_a = GameNode {
        properties: vec![Prop::B(Some((4, 4)))],
        children: vec![GameNode {
            properties: vec![Prop::W(Some((5, 5)))],
            children: vec![],
        }],
    };
    let fork_b = GameNode {
        properties: vec![Prop::B(Some((2, 2)))],
        children: vec![],
    };
    let root = GameNode {
        properties: vec![Prop::SZ(9, 9)],
        children: vec![fork_a, fork_b],
    };
    let collection = vec![root];

    // `Last` walks the first-child chain to its end.
    let (goban, node) = sgf_render::resolve(&collection, 0, &vec![Step::Last]).unwrap();
    assert!(node.children.is_empty());
    assert_eq!(goban.stone_color(4, 4), Some(StoneColor::Black));
    assert_eq!(goban.stone_color(5, 5), Some(StoneColor::White));

    // `Variation(1)` descends into the fork's second child.
    let (goban, _) = sgf_render::resolve(&collection, 0, &vec![Step::Variation(1)]).unwrap();
    assert_eq!(goban.stone_color(2, 2), Some(StoneColor::Black));
    assert_eq!(goban.stone_color(4, 4), None);

    // Advancing too far runs off the line.
    let r = sgf_render::resolve(&collection, 0, &vec![Step::Advance(3)]);
    assert!(matches!(r, Err(GobanError::InsufficientSgfNodes)));

    // A missing branch is reported.
    let r = sgf_render::resolve(&collection, 0, &vec![Step::Variation(2)]);
    assert!(matches!(r, Err(GobanError::MissingVariation)));

    // A missing game is reported.
    let r = sgf_render::resolve(&collection, 1, &vec![]);
    assert!(matches!(r, Err(GobanError::MissingGame)));
}
