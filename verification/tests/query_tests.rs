use sgf_parse::go;
use sgf_render::goban::get_board_size;
use sgf_render::query::{query_game_index, query_node_index, query_variation_index};
use sgf_render::sgf::{GameNode, Prop};
use sgf_render::{GobanError, QueryError};

fn convert_point_set(pts: &std::collections::HashSet<go::Point>) -> Vec<(u8, u8)> {
    let mut v: Vec<(u8, u8)> = pts.iter().map(|p| (p.x, p.y)).collect();
    v.sort();
    v
}

fn convert_pair_set(
    pts: &std::collections::HashSet<(go::Point, go::Point)>,
) -> Vec<((u8, u8), (u8, u8))> {
    let mut v: Vec<((u8, u8), (u8, u8))> = pts
        .iter()
        .map(|(a, b)| ((a.x, a.y), (b.x, b.y)))
        .collect();
    v.sort();
    v
}

fn convert_prop(p: &go::Prop) -> Prop {
    match p {
        go::Prop::B(go::Move::Move(pt)) => Prop::B(Some((pt.x, pt.y))),
        go::Prop::B(go::Move::Pass) => Prop::B(None),
        go::Prop::W(go::Move::Move(pt)) => Prop::W(Some((pt.x, pt.y))),
        go::Prop::W(go::Move::Pass) => Prop::W(None),
        go::Prop::AB(pts) => Prop::AB(convert_point_set(pts)),
        go::Prop::AW(pts) => Prop::AW(convert_point_set(pts)),
        go::Prop::AE(pts) => Prop::AE(convert_point_set(pts)),
        go::Prop::MN(n) => Prop::MN(*n as u64),
        go::Prop::MA(pts) => Prop::MA(convert_point_set(pts)),
        go::Prop::TR(pts) => Prop::TR(convert_point_set(pts)),
        go::Prop::CR(pts) => Prop::CR(convert_point_set(pts)),
        go::Prop::SQ(pts) => Prop::SQ(convert_point_set(pts)),
        go::Prop::SL(pts) => Prop::SL(convert_point_set(pts)),
        go::Prop::DD(pts) => Prop::DD(convert_point_set(pts)),
        go::Prop::LB(ls) => {
            let mut v: Vec<((u8, u8), String)> = ls
                .iter()
                .map(|(pt, t)| ((pt.x, pt.y), t.to_string()))
                .collect();
            v.sort();
            Prop::LB(v)
        }
        go::Prop::LN(ps) => Prop::LN(convert_pair_set(ps)),
        go::Prop::AR(ps) => Prop::AR(convert_pair_set(ps)),
        go::Prop::SZ((x, y)) => Prop::SZ(*x, *y),
        go::Prop::Invalid(id, _) if id == "SZ" => Prop::SzInvalid,
        _ => Prop::Other,
    }
}

fn convert_node(n: &sgf_parse::SgfNode<go::Prop>) -> GameNode {
    GameNode {
        properties: n.properties().map(convert_prop).collect(),
        children: n.children().map(convert_node).collect(),
    }
}

fn parse(sgf: &str) -> Vec<GameNode> {
    go::parse(sgf).unwrap().iter().map(convert_node).collect()
}

static TEST_DATA: &str = "\
(;GM[1]FF[4]
CA[UTF-8]
AP[Quarry:0.2.0]
SZ[9]
KM[6.5]
PB[Black]
PW[White]
;B[ee];W[ec]
(;B[eg];W[eh];B[dh]
(;W[cd];B[gd];W[fh])
(;W[gd];B[fh]))
(;B[fc];W[fb]
(;B[fd]
(;W[gb]
(;B[eg])
(;B[dg])
(;B[ce]))
(;W[eg]
(;B[gb])
(;B[fg];W[fh])))
(;B[gc])
(;B[eg]))
)

(;GM[1]FF[4]
CA[UTF-8]
AP[Quarry:0.2.0]
SZ[9]
KM[6.5]
PB[Black]
PW[White]
;B[de];W[fe]
(;B[ge])
(;B[fg])
)";

fn get_collection() -> Vec<GameNode> {
    parse(TEST_DATA)
}

#[test]
fn invalid_sz() {
    let collection = parse("(;SZ[foo])");
    let result = get_board_size(&collection[0]);
    assert!(matches!(result, Err(GobanError::InvalidSzProperty)));
}

#[test]
fn game_index() {
    let result = query_game_index(&get_collection()).unwrap();
    assert_eq!(result, 1);
}

#[test]
fn game_index_error() {
    let result = query_game_index(&vec![]);
    assert!(matches!(result, Err(QueryError::GameNotFound)));
}

#[test]
fn variation_index() {
    assert_eq!(query_variation_index(&get_collection(), 0).unwrap(), 8);
    assert_eq!(query_variation_index(&get_collection(), 1).unwrap(), 1);
}

#[test]
fn variation_index_error() {
    let result = query_variation_index(&get_collection(), 2);
    assert!(matches!(result, Err(QueryError::GameNotFound)));
}

#[test]
fn node_index() {
    assert_eq!(query_node_index(&get_collection(), 0, 0).unwrap(), 8);
    assert_eq!(query_node_index(&get_collection(), 0, 1).unwrap(), 7);
    assert_eq!(query_node_index(&get_collection(), 0, 2).unwrap(), 7);
    assert_eq!(query_node_index(&get_collection(), 0, 3).unwrap(), 7);
    assert_eq!(query_node_index(&get_collection(), 0, 4).unwrap(), 7);
    assert_eq!(query_node_index(&get_collection(), 0, 5).unwrap(), 7);
    assert_eq!(query_node_index(&get_collection(), 0, 6).unwrap(), 8);
    assert_eq!(query_node_index(&get_collection(), 0, 7).unwrap(), 5);
    assert_eq!(query_node_index(&get_collection(), 0, 8).unwrap(), 5);
    assert_eq!(query_node_index(&get_collection(), 1, 0).unwrap(), 3);
    assert_eq!(query_node_index(&get_collection(), 1, 1).unwrap(), 3);
}

#[test]
fn node_index_error() {
    let result = query_node_index(&get_collection(), 0, 9);
    assert!(matches!(result, Err(QueryError::VariationNotFound)));
}

#[test]
fn variation_numbering_assigns_fresh_ids_in_preorder() {
    let collection = get_collection();
    let roots = sgf_render::variation_roots(&collection[1]);
    // The root opens variation 0; the fork's first child keeps 0; the
    // second child gets the fresh id 1 with parent 0.
    assert_eq!(roots[0].variation, 0);
    assert_eq!(roots[1].variation, 0);
    assert_eq!(roots[1].branch_number, 0);
    assert_eq!(roots[2].variation, 1);
    assert_eq!(roots[2].branch_number, 1);
    assert_eq!(roots[2].parent_variation, 0);
}

#[test]
fn variation_nodes_splices_ancestor_lines() {
    let collection = get_collection();
    // Variation 1 of game 1: root, B[de], W[fe], then B[fg].
    let nodes = sgf_render::variation_nodes(&collection[1], 1).unwrap();
    assert_eq!(nodes.len(), 4);
    assert_eq!(nodes[0].variation, 0);
    assert_eq!(nodes[3].variation, 1);
    assert_eq!(nodes[3].variation_node_number, 3);
}
