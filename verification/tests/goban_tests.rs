use sgf_render::goban::{Goban, Stone, StoneColor};
use sgf_render::node_description::{NodeDescription, NodeNumber};
use sgf_render::sgf::{GameNode, Prop};
use sgf_render::GobanError;

fn node(properties: Vec<Prop>, children: Vec<GameNode>) -> GameNode {
    GameNode { properties, children }
}

fn leaf(properties: Vec<Prop>) -> GameNode {
    node(properties, vec![])
}

fn stones_set(goban: &Goban) -> Vec<(u8, u8, StoneColor)> {
    let mut v: Vec<(u8, u8, StoneColor)> = goban
        .stones()
        .into_iter()
        .map(|s| (s.x, s.y, s.color))
        .collect();
    v.sort_by_key(|e| (e.0, e.1));
    v
}

#[test]
fn add_stone_rejects_out_of_bounds() {
    let mut g = Goban::new((9, 9));
    assert!(matches!(
        g.add_stone(Stone::new(9, 0, StoneColor::Black)),
        Err(GobanError::InvalidMove)
    ));
    assert!(matches!(
        g.add_stone(Stone::new(0, 9, StoneColor::White)),
        Err(GobanError::InvalidMove)
    ));
}

#[test]
fn add_stone_rejects_occupied_point() {
    let mut g = Goban::new((9, 9));
    assert!(g.add_stone(Stone::new(2, 2, StoneColor::Black)).is_ok());
    assert!(matches!(
        g.add_stone(Stone::new(2, 2, StoneColor::White)),
        Err(GobanError::InvalidMove)
    ));
}

#[test]
fn add_stone_accepts_distinct_points() {
    // Non-overlapping, in-bounds placements never signal InvalidMove.
    let mut g = Goban::new((9, 9));
    for i in 0..9u8 {
        assert!(g.add_stone(Stone::new(i, i, StoneColor::Black)).is_ok());
    }
    assert_eq!(g.stones().len(), 9);
}

#[test]
fn setup_then_move_on_same_point_is_rejected() {
    // `AB[ac]` followed by `B[ac]`.
    let tree = node(
        vec![Prop::AB(vec![(0, 2)])],
        vec![leaf(vec![Prop::B(Some((0, 2)))])],
    );
    let result = Goban::from_collection(&vec![tree], &NodeDescription::default());
    assert!(matches!(result, Err(GobanError::InvalidMove)));
}

#[test]
fn lone_stone_surrounded_is_captured() {
    let mut g = Goban::new((9, 9));
    g.add_stone(Stone::new(4, 4, StoneColor::White)).unwrap();
    g.play_stone(Stone::new(3, 4, StoneColor::Black)).unwrap();
    g.play_stone(Stone::new(5, 4, StoneColor::Black)).unwrap();
    g.play_stone(Stone::new(4, 3, StoneColor::Black)).unwrap();
    assert_eq!(g.stone_color(4, 4), Some(StoneColor::White));
    assert_eq!(g.captures(StoneColor::Black), 0);
    g.play_stone(Stone::new(4, 5, StoneColor::Black)).unwrap();
    assert_eq!(g.stone_color(4, 4), None);
    assert_eq!(g.captures(StoneColor::Black), 1);
    assert_eq!(g.captures(StoneColor::White), 0);
}

#[test]
fn group_capture_removes_whole_group() {
    let mut g = Goban::new((9, 9));
    g.add_stone(Stone::new(1, 0, StoneColor::White)).unwrap();
    g.add_stone(Stone::new(2, 0, StoneColor::White)).unwrap();
    g.add_stone(Stone::new(0, 0, StoneColor::Black)).unwrap();
    g.add_stone(Stone::new(1, 1, StoneColor::Black)).unwrap();
    g.add_stone(Stone::new(2, 1, StoneColor::Black)).unwrap();
    g.play_stone(Stone::new(3, 0, StoneColor::Black)).unwrap();
    assert_eq!(g.stone_color(1, 0), None);
    assert_eq!(g.stone_color(2, 0), None);
    assert_eq!(g.captures(StoneColor::Black), 2);
}

#[test]
fn corner_stone_captured_by_two() {
    let mut g = Goban::new((9, 9));
    g.add_stone(Stone::new(0, 0, StoneColor::White)).unwrap();
    g.play_stone(Stone::new(1, 0, StoneColor::Black)).unwrap();
    assert_eq!(g.stone_color(0, 0), Some(StoneColor::White));
    g.play_stone(Stone::new(0, 1, StoneColor::Black)).unwrap();
    assert_eq!(g.stone_color(0, 0), None);
    assert_eq!(g.captures(StoneColor::Black), 1);
}

#[test]
fn suicide_stone_is_removed() {
    let mut g = Goban::new((9, 9));
    g.add_stone(Stone::new(3, 4, StoneColor::Black)).unwrap();
    g.add_stone(Stone::new(5, 4, StoneColor::Black)).unwrap();
    g.add_stone(Stone::new(4, 3, StoneColor::Black)).unwrap();
    g.add_stone(Stone::new(4, 5, StoneColor::Black)).unwrap();
    g.play_stone(Stone::new(4, 4, StoneColor::White)).unwrap();
    assert_eq!(g.stone_color(4, 4), None);
    assert_eq!(g.captures(StoneColor::Black), 1);
}

#[test]
fn capture_beats_suicide() {
    // Playing into a surrounded point that captures first is not suicide.
    let mut g = Goban::new((9, 9));
    g.add_stone(Stone::new(0, 0, StoneColor::White)).unwrap();
    g.add_stone(Stone::new(0, 1, StoneColor::Black)).unwrap();
    g.add_stone(Stone::new(1, 1, StoneColor::Black)).unwrap();
    g.add_stone(Stone::new(2, 0, StoneColor::Black)).unwrap();
    // (1,0) is adjacent to white (0,0), black (1,1) and black (2,0).
    g.play_stone(Stone::new(1, 0, StoneColor::Black)).unwrap();
    assert_eq!(g.stone_color(0, 0), None);
    assert_eq!(g.stone_color(1, 0), Some(StoneColor::Black));
    assert_eq!(g.captures(StoneColor::Black), 1);
}

#[test]
fn moves_record_numbers_in_order() {
    let mut g = Goban::new((9, 9));
    g.play_stone(Stone::new(1, 1, StoneColor::Black)).unwrap();
    g.play_stone(Stone::new(7, 7, StoneColor::White)).unwrap();
    let moves = g.moves();
    assert_eq!(moves.len(), 2);
    assert_eq!(moves[0], (1, Stone::new(1, 1, StoneColor::Black)));
    assert_eq!(moves[1], (2, Stone::new(7, 7, StoneColor::White)));
}

#[test]
fn move_number_override_restarts_count() {
    let mut g = Goban::new((9, 9));
    g.play_stone(Stone::new(1, 1, StoneColor::Black)).unwrap();
    g.set_move_number(10);
    g.play_stone(Stone::new(2, 2, StoneColor::White)).unwrap();
    let moves = g.moves();
    assert_eq!(moves[1], (11, Stone::new(2, 2, StoneColor::White)));
}

#[test]
fn stones_before_move_returns_snapshot() {
    let mut g = Goban::new((9, 9));
    g.play_stone(Stone::new(1, 1, StoneColor::Black)).unwrap();
    g.play_stone(Stone::new(2, 2, StoneColor::White)).unwrap();
    // Before move number 1 (the second play) one stone sat on the board.
    let snap = g.stones_before_move(1);
    assert_eq!(snap.len(), 1);
    assert_eq!(snap[0], Stone::new(1, 1, StoneColor::Black));
    // No snapshot under 99: the current stones come back.
    assert_eq!(g.stones_before_move(99).len(), 2);
}

#[test]
fn markup_is_replaced_not_accumulated() {
    let mut g = Goban::new((9, 9));
    let first = leaf(vec![
        Prop::MA(vec![(1, 1)]),
        Prop::TR(vec![(2, 2)]),
        Prop::CR(vec![(3, 3)]),
        Prop::SQ(vec![(4, 4)]),
        Prop::SL(vec![(5, 5)]),
        Prop::DD(vec![(6, 6)]),
        Prop::LB(vec![((7, 7), "a".to_string())]),
        Prop::LN(vec![((0, 0), (1, 1))]),
        Prop::AR(vec![((2, 2), (3, 3))]),
    ]);
    g.process_node(&first).unwrap();
    assert_eq!(g.marks(), vec![(1, 1)]);
    assert_eq!(g.labels().len(), 1);
    // A node with no markup properties clears all nine categories.
    let second = leaf(vec![]);
    g.process_node(&second).unwrap();
    assert!(g.marks().is_empty());
    assert!(g.triangles().is_empty());
    assert!(g.circles().is_empty());
    assert!(g.squares().is_empty());
    assert!(g.selected().is_empty());
    assert!(g.dimmed().is_empty());
    assert!(g.lines().is_empty());
    assert!(g.arrows().is_empty());
    assert!(g.labels().is_empty());
}

#[test]
fn replay_is_deterministic() {
    let props = vec![
        Prop::AB(vec![(0, 1), (1, 0)]),
        Prop::W(Some((5, 5))),
        Prop::B(Some((4, 4))),
        Prop::MA(vec![(3, 3)]),
    ];
    let mut g1 = Goban::new((9, 9));
    let mut g2 = Goban::new((9, 9));
    let n = leaf(props.clone());
    g1.process_node(&n).unwrap();
    g2.process_node(&n).unwrap();
    assert_eq!(stones_set(&g1), stones_set(&g2));
    assert_eq!(g1.moves(), g2.moves());
    assert_eq!(
        g1.captures(StoneColor::Black),
        g2.captures(StoneColor::Black)
    );
    assert_eq!(
        g1.captures(StoneColor::White),
        g2.captures(StoneColor::White)
    );
    assert_eq!(g1.marks(), g2.marks());
}

#[test]
fn tt_pass_is_discarded_on_small_boards() {
    let mut g = Goban::new((19, 19));
    let n = leaf(vec![Prop::B(Some((19, 19)))]);
    g.process_node(&n).unwrap();
    assert!(g.stones().is_empty());
    assert!(g.moves().is_empty());
}

#[test]
fn erase_property_removes_stone_capture_free() {
    let mut g = Goban::new((9, 9));
    let n = leaf(vec![Prop::AB(vec![(2, 2)]), Prop::AE(vec![(2, 2)])]);
    g.process_node(&n).unwrap();
    assert_eq!(g.stone_color(2, 2), None);
    assert_eq!(g.captures(StoneColor::Black), 0);
    assert_eq!(g.captures(StoneColor::White), 0);
}

#[test]
fn from_collection_missing_game() {
    let nd = NodeDescription {
        game_number: 1,
        variation: 0,
        node_number: NodeNumber::Last,
    };
    let result = Goban::from_collection(&vec![leaf(vec![])], &nd);
    assert!(matches!(result, Err(GobanError::MissingGame)));
}

#[test]
fn from_collection_missing_variation() {
    // A tree with only variations 0 through 3: a root fork of four children.
    let root = node(
        vec![],
        vec![
            leaf(vec![Prop::B(Some((0, 0)))]),
            leaf(vec![Prop::B(Some((1, 0)))]),
            leaf(vec![Prop::B(Some((2, 0)))]),
            leaf(vec![Prop::B(Some((3, 0)))]),
        ],
    );
    for v in 0..4u64 {
        let nd = NodeDescription {
            game_number: 0,
            variation: v,
            node_number: NodeNumber::Last,
        };
        assert!(Goban::from_collection(&vec![clone_tree(&root)], &nd).is_ok());
    }
    let nd = NodeDescription {
        game_number: 0,
        variation: 5,
        node_number: NodeNumber::Last,
    };
    let result = Goban::from_collection(&vec![root], &nd);
    assert!(matches!(result, Err(GobanError::MissingVariation)));
}


#[test]
fn from_collection_insufficient_nodes() {
    let root = node(vec![], vec![leaf(vec![Prop::B(Some((0, 0)))])]);
    let nd = NodeDescription {
        game_number: 0,
        variation: 0,
        node_number: NodeNumber::Number(5),
    };
    let result = Goban::from_collection(&vec![root], &nd);
    assert!(matches!(result, Err(GobanError::InsufficientSgfNodes)));
}

#[test]
fn from_collection_replays_main_line() {
    let root = node(
        vec![Prop::SZ(9, 9), Prop::AB(vec![(0, 0)])],
        vec![node(
            vec![Prop::B(Some((4, 4)))],
            vec![leaf(vec![Prop::W(Some((5, 5)))])],
        )],
    );
    let goban = Goban::from_collection(&vec![root], &NodeDescription::default()).unwrap();
    assert_eq!(goban.size(), (9, 9));
    assert_eq!(goban.stone_color(0, 0), Some(StoneColor::Black));
    assert_eq!(goban.stone_color(4, 4), Some(StoneColor::Black));
    assert_eq!(goban.stone_color(5, 5), Some(StoneColor::White));
    assert_eq!(goban.moves().len(), 2);
}

#[test]
fn hoshi_points_by_board_size() {
    assert_eq!(Goban::new((9, 9)).hoshi_points().len(), 4);
    assert_eq!(Goban::new((13, 13)).hoshi_points().len(), 5);
    assert_eq!(Goban::new((19, 19)).hoshi_points().len(), 9);
    assert_eq!(Goban::new((7, 7)).hoshi_points().len(), 0);
}

fn clone_tree(n: &GameNode) -> GameNode {
    GameNode {
        properties: n.properties.clone(),
        children: n.children.iter().map(clone_tree).collect(),
    }
}

#[test]
fn pass_moves_change_nothing() {
    let mut g = Goban::new((9, 9));
    let n = leaf(vec![Prop::B(None), Prop::W(None)]);
    g.process_node(&n).unwrap();
    assert!(g.stones().is_empty());
    assert!(g.moves().is_empty());
}

#[test]
fn tt_point_is_played_on_large_boards() {
    let mut g = Goban::new((21, 21));
    let n = leaf(vec![Prop::B(Some((19, 19)))]);
    g.process_node(&n).unwrap();
    assert_eq!(g.stone_color(19, 19), Some(StoneColor::Black));
}

#[test]
fn board_size_defaults_to_nineteen() {
    let root = leaf(vec![]);
    let goban = Goban::from_collection(&vec![root], &NodeDescription::default()).unwrap();
    assert_eq!(goban.size(), (19, 19));
}

#[test]
fn oversized_board_declaration_is_rejected() {
    let root = leaf(vec![Prop::SZ(53, 19)]);
    let result = Goban::from_collection(&vec![root], &NodeDescription::default());
    assert!(matches!(result, Err(GobanError::InvalidSzProperty)));
}

#[test]
fn node_number_limits_replay() {
    let root = node(
        vec![Prop::AB(vec![(0, 0)])],
        vec![node(
            vec![Prop::B(Some((1, 1)))],
            vec![leaf(vec![Prop::W(Some((2, 2)))])],
        )],
    );
    // Node number 1: the root and one more node are processed.
    let nd = NodeDescription {
        game_number: 0,
        variation: 0,
        node_number: NodeNumber::Number(1),
    };
    let goban = Goban::from_collection(&vec![root], &nd).unwrap();
    assert_eq!(goban.stone_color(1, 1), Some(StoneColor::Black));
    assert_eq!(goban.stone_color(2, 2), None);
}

#[test]
fn both_sides_count_their_captures() {
    let mut g = Goban::new((9, 9));
    g.add_stone(Stone::new(0, 0, StoneColor::White)).unwrap();
    g.play_stone(Stone::new(1, 0, StoneColor::Black)).unwrap();
    g.play_stone(Stone::new(0, 1, StoneColor::Black)).unwrap();
    assert_eq!(g.captures(StoneColor::Black), 1);
    g.add_stone(Stone::new(8, 8, StoneColor::Black)).unwrap();
    g.play_stone(Stone::new(7, 8, StoneColor::White)).unwrap();
    g.play_stone(Stone::new(8, 7, StoneColor::White)).unwrap();
    assert_eq!(g.captures(StoneColor::White), 1);
    assert_eq!(g.captures(StoneColor::Black), 1);
}
