use vstd::prelude::*;

use crate::errors::GobanError;
use crate::goban::{
    empty_goban_view, get_board_size, spec_board_size, spec_process_node, Goban, GobanView,
};
use crate::sgf::GameNode;

verus! {

/// Which node of a game record to reconstruct: a game of the collection, a
/// variation id, and a node position within that variation.
#[derive(Debug, PartialEq, Eq, Clone, Copy, Structural)]
pub struct NodeDescription {
    pub game_number: u64,
    pub variation: u64,
    pub node_number: NodeNumber,
}

/// A node position within a variation: a specific number, or its last node.
#[derive(Debug, PartialEq, Eq, Clone, Copy, Structural)]
pub enum NodeNumber {
    Number(u64),
    Last,
}

impl Default for NodeNumber {
    /// The default position is the end of the line.
    fn default() -> (r: Self)
        ensures
            r == NodeNumber::Last,
    {
        NodeNumber::Last
    }
}

impl Default for NodeDescription {
    /// The default description: the first game's main line, walked to its
    /// last node.
    fn default() -> (r: Self)
        ensures
            r == (NodeDescription { game_number: 0, variation: 0, node_number: NodeNumber::Last }),
    {
        NodeDescription { game_number: 0, variation: 0, node_number: NodeNumber::Last }
    }
}

/// What went wrong while reading a node position.
#[derive(Debug, Clone)]
pub enum NodeDescriptionError {
    UnrecognizedNodeNumber(String),
}

/// One step of a node path: move some plies along the current line, descend
/// into a numbered child at the nearest fork, or walk to the line's end.
#[derive(Debug, PartialEq, Eq, Clone, Copy, Structural)]
pub enum Step {
    Advance(u64),
    Variation(u64),
    Last,
}

/// `a + b`, stopped at the largest count.
pub open spec fn sat_add_u64(a: u64, b: u64) -> u64 {
    if a + b > u64::MAX {
        u64::MAX
    } else {
        (a + b) as u64
    }
}

/// One step appended to an already-normalized path: descending into a
/// fork's first child is a plain advance, and consecutive advances merge.
pub open spec fn spec_norm_push(acc: Seq<Step>, s: Step) -> Seq<Step> {
    let s2 = if s == Step::Variation(0u64) {
        Step::Advance(1u64)
    } else {
        s
    };
    match s2 {
        Step::Advance(n) => if acc.len() > 0 && acc.last() is Advance {
            acc.drop_last().push(Step::Advance(sat_add_u64(acc.last()->Advance_0, n)))
        } else {
            acc.push(Step::Advance(n))
        },
        _ => acc.push(s2),
    }
}

/// A whole path normalized step by step.
pub open spec fn spec_normalize(steps: Seq<Step>) -> Seq<Step>
    decreases steps.len(),
{
    if steps.len() == 0 {
        Seq::empty()
    } else {
        spec_norm_push(spec_normalize(steps.drop_last()), steps.last())
    }
}

/// Is a path in normal form: no descent into a first child, and no two
/// advances in a row?
pub open spec fn is_normal(steps: Seq<Step>) -> bool {
    &&& forall|i: int| 0 <= i < steps.len() ==> #[trigger] steps[i] != Step::Variation(0u64)
    &&& forall|i: int|
        0 < i < steps.len() ==> !((#[trigger] steps[i]) is Advance && steps[i - 1] is Advance)
}

/// Normalization always lands in normal form.
pub proof fn lemma_normalize_normal(steps: Seq<Step>)
    ensures
        is_normal(spec_normalize(steps)),
    decreases steps.len(),
{
    if steps.len() > 0 {
        lemma_normalize_normal(steps.drop_last());
        let acc = spec_normalize(steps.drop_last());
        let out = spec_norm_push(acc, steps.last());
        assert forall|i: int| 0 <= i < out.len() implies #[trigger] out[i] != Step::Variation(
            0u64,
        ) && (0 < i ==> !(out[i] is Advance && out[i - 1] is Advance)) by {
            if i < acc.len() - 1 {
                assert(out[i] == acc[i]);
                if 0 < i {
                    assert(out[i - 1] == acc[i - 1]);
                }
            }
        }
    }
}

/// Normalizes a node path: `Variation(0)` becomes `Advance(1)`, and runs of
/// consecutive advances merge into one.
pub fn normalize_steps(steps: &Vec<Step>) -> (r: Vec<Step>)
    ensures
        r@ == spec_normalize(steps@),
        is_normal(r@),
{
    let mut r: Vec<Step> = Vec::new();
    let mut i: usize = 0;
    proof {
        assert(steps@.take(0) =~= Seq::<Step>::empty());
    }
    while i < steps.len()
        invariant
            0 <= i <= steps@.len(),
            r@ == spec_normalize(steps@.take(i as int)),
        decreases steps@.len() - i,
    {
        let ghost acc = r@;
        let s0 = steps[i];
        let s2 = match s0 {
            Step::Variation(n) => if n == 0 {
                Step::Advance(1)
            } else {
                Step::Variation(n)
            },
            other => other,
        };
        let mut merged = false;
        match s2 {
            Step::Advance(n) => {
                if r.len() > 0 {
                    let last = r[r.len() - 1];
                    match last {
                        Step::Advance(m) => {
                            let total = if m <= u64::MAX - n {
                                m + n
                            } else {
                                u64::MAX
                            };
                            r.pop();
                            r.push(Step::Advance(total));
                            merged = true;
                            proof {
                                assert(r@ =~= acc.drop_last().push(
                                    Step::Advance(sat_add_u64(m, n)),
                                ));
                            }
                        },
                        _ => {},
                    }
                }
                if !merged {
                    r.push(Step::Advance(n));
                }
            },
            other => {
                r.push(other);
            },
        }
        proof {
            assert(steps@.take(i + 1 as int).drop_last() =~= steps@.take(i as int));
            assert(steps@.take(i + 1 as int).last() == steps@[i as int]);
            assert(r@ == spec_norm_push(acc, steps@[i as int]));
        }
        i = i + 1;
    }
    proof {
        assert(steps@.take(steps@.len() as int) =~= steps@);
        lemma_normalize_normal(steps@);
    }
    r
}

} // verus!

verus! {

/// Advancing `n` plies along the current line: each intermediate node is
/// processed, and a missing child stops the walk.
pub open spec fn spec_step_advance(v: GobanView, node: GameNode, n: int) -> (
    GobanView,
    GameNode,
    Option<GobanError>,
)
    decreases n,
{
    if n <= 0 {
        (v, node, None)
    } else if node.children@.len() == 0 {
        (v, node, Some(GobanError::InsufficientSgfNodes))
    } else {
        let child = node.children@[0];
        let st = spec_process_node(v, child.properties@);
        if st.1 is Some {
            (st.0, child, st.1)
        } else {
            spec_step_advance(st.0, child, n - 1)
        }
    }
}

/// Walking to the end of the current line, processing every node passed.
pub open spec fn spec_walk_last(v: GobanView, node: GameNode) -> (
    GobanView,
    GameNode,
    Option<GobanError>,
)
    decreases node,
{
    if node.children@.len() == 0 {
        (v, node, None)
    } else {
        let child = node.children@[0];
        let st = spec_process_node(v, child.properties@);
        if st.1 is Some {
            (st.0, child, st.1)
        } else {
            spec_walk_last(st.0, child)
        }
    }
}

/// One path step executed at a node.
pub open spec fn spec_apply_step(v: GobanView, node: GameNode, step: Step) -> (
    GobanView,
    GameNode,
    Option<GobanError>,
) {
    match step {
        Step::Advance(n) => spec_step_advance(v, node, n as int),
        Step::Variation(n) => if n >= node.children@.len() {
            (v, node, Some(GobanError::MissingVariation))
        } else {
            let child = node.children@[n as int];
            let st = spec_process_node(v, child.properties@);
            (st.0, child, st.1)
        },
        Step::Last => spec_walk_last(v, node),
    }
}

/// The first `k` steps of a path executed in order, stopping at the first
/// failure.
pub open spec fn spec_run_steps(v: GobanView, node: GameNode, steps: Seq<Step>, k: int) -> (
    GobanView,
    GameNode,
    Option<GobanError>,
)
    decreases k,
{
    if k <= 0 {
        (v, node, None)
    } else {
        let prev = spec_run_steps(v, node, steps, k - 1);
        if prev.2 is Some {
            prev
        } else {
            spec_apply_step(prev.0, prev.1, steps[k - 1])
        }
    }
}

/// Once a step fails, later steps change nothing.
pub proof fn lemma_run_steps_error_stable(
    v: GobanView,
    node: GameNode,
    steps: Seq<Step>,
    k1: int,
    k2: int,
)
    requires
        0 <= k1 <= k2,
        spec_run_steps(v, node, steps, k1).2 is Some,
    ensures
        spec_run_steps(v, node, steps, k2) == spec_run_steps(v, node, steps, k1),
    decreases k2 - k1,
{
    if k2 > k1 {
        lemma_run_steps_error_stable(v, node, steps, k1, k2 - 1);
    }
}

/// An advance splits into two shorter advances.
pub proof fn lemma_advance_split(v: GobanView, node: GameNode, a: int, b: int)
    requires
        0 <= a,
        0 <= b,
    ensures
        spec_step_advance(v, node, a + b) == ({
            let first = spec_step_advance(v, node, a);
            if first.2 is Some {
                first
            } else {
                spec_step_advance(first.0, first.1, b)
            }
        }),
    decreases a,
{
    if a > 0 {
        if node.children@.len() == 0 {
        } else {
            let child = node.children@[0];
            let st = spec_process_node(v, child.properties@);
            if st.1 is None {
                lemma_advance_split(st.0, child, a - 1, b);
            }
        }
    }
}

/// The whole resolution: the chosen game's root is processed, the path is
/// normalized, and each step drives the board down the tree to the target
/// node.
pub open spec fn spec_resolve(col: Seq<GameNode>, game_number: u64, steps: Seq<Step>) -> Result<
    (GobanView, GameNode),
    GobanError,
> {
    if game_number >= col.len() {
        Err(GobanError::MissingGame)
    } else {
        let root = col[game_number as int];
        match spec_board_size(root.properties@) {
            Err(e) => Err(e),
            Ok(size) => {
                let st0 = spec_process_node(empty_goban_view(size), root.properties@);
                if st0.1 is Some {
                    Err(st0.1->0)
                } else {
                    let norm = spec_normalize(steps);
                    let fin = spec_run_steps(st0.0, root, norm, norm.len() as int);
                    if fin.2 is Some {
                        Err(fin.2->0)
                    } else {
                        Ok((fin.0, fin.1))
                    }
                }
            },
        }
    }
}

/// Resolves a node path against a game collection: picks the game, replays
/// its root, then follows the normalized steps, feeding every node passed
/// to the simulator.  Returns the finished board and the target node.
#[verifier::loop_isolation(false)]
pub fn resolve<'a>(
    collection: &'a Vec<GameNode>,
    game_number: u64,
    steps: &Vec<Step>,
) -> (r: Result<(Goban, &'a GameNode), GobanError>)
    ensures
        match r {
            Ok((g, node)) => g.wf() && spec_resolve(collection@, game_number, steps@) == Ok::<
                (GobanView, GameNode),
                GobanError,
            >((g@, *node)),
            Err(e) => spec_resolve(collection@, game_number, steps@) == Err::<
                (GobanView, GameNode),
                GobanError,
            >(e),
        },
{
    if game_number >= collection.len() as u64 {
        return Err(GobanError::MissingGame);
    }
    let root: &'a GameNode = &collection[game_number as usize];
    let board_size = match get_board_size(root) {
        Ok(s) => s,
        Err(e) => {
            return Err(e);
        },
    };
    let mut goban = Goban::new(board_size);
    proof {
        assert(goban@ =~= empty_goban_view(board_size));
    }
    match goban.process_node(root) {
        Ok(_) => {},
        Err(e) => {
            return Err(e);
        },
    }
    let norm = normalize_steps(steps);
    let ghost norm_m = norm@;
    let ghost v0 = goban@;
    let mut cur: &'a GameNode = root;
    let mut i: usize = 0;
    while i < norm.len()
        invariant
            goban.wf(),
            0 <= i <= norm_m.len(),
            spec_run_steps(v0, *root, norm_m, i as int).2 is None,
            goban@ == spec_run_steps(v0, *root, norm_m, i as int).0,
            *cur == spec_run_steps(v0, *root, norm_m, i as int).1,
        decreases norm_m.len() - i,
    {
        let ghost vi = goban@;
        let ghost node_i = *cur;
        match norm[i] {
            Step::Advance(n) => {
                let mut j: u64 = 0;
                while j < n
                    invariant
                        goban.wf(),
                        0 <= j <= n,
                        spec_step_advance(vi, node_i, j as int).2 is None,
                        goban@ == spec_step_advance(vi, node_i, j as int).0,
                        *cur == spec_step_advance(vi, node_i, j as int).1,
                    decreases n - j,
                {
                    let ghost vb = goban@;
                    let ghost nb = *cur;
                    proof {
                        lemma_advance_split(vi, node_i, j as int, 1);
                        assert(spec_step_advance(vi, node_i, j as int) == (
                            vb,
                            nb,
                            Option::<GobanError>::None,
                        ));
                    }
                    if cur.children.len() == 0 {
                        proof {
                            assert(spec_step_advance(goban@, *cur, 1).2 == Some(
                                GobanError::InsufficientSgfNodes,
                            ));
                            assert(spec_step_advance(vi, node_i, j + 1 as int).2 == Some(
                                GobanError::InsufficientSgfNodes,
                            ));
                            lemma_advance_split(vi, node_i, j + 1 as int, (n - j - 1) as int);
                            assert(spec_step_advance(vi, node_i, n as int).2 == Some(
                                GobanError::InsufficientSgfNodes,
                            ));
                            lemma_run_steps_error_stable(
                                v0,
                                *root,
                                norm_m,
                                i + 1 as int,
                                norm_m.len() as int,
                            );
                        }
                        return Err(GobanError::InsufficientSgfNodes);
                    }
                    let child: &'a GameNode = &cur.children[0];
                    match goban.process_node(child) {
                        Ok(_) => {},
                        Err(e) => {
                            proof {
                                assert(spec_step_advance(vi, node_i, j + 1 as int).2 == Some(e));
                                lemma_advance_split(vi, node_i, j + 1 as int, (n - j - 1) as int);
                                lemma_run_steps_error_stable(
                                    v0,
                                    *root,
                                    norm_m,
                                    i + 1 as int,
                                    norm_m.len() as int,
                                );
                            }
                            return Err(e);
                        },
                    }
                    cur = child;
                    proof {
                        reveal_with_fuel(spec_step_advance, 2);
                        assert(spec_step_advance(vb, nb, 1) == (
                            goban@,
                            *cur,
                            Option::<GobanError>::None,
                        ));
                        assert(spec_step_advance(vi, node_i, j + 1 as int) == (
                            goban@,
                            *cur,
                            Option::<GobanError>::None,
                        ));
                    }
                    j = j + 1;
                }
            },
            Step::Variation(n) => {
                if n >= cur.children.len() as u64 {
                    proof {
                        lemma_run_steps_error_stable(
                            v0,
                            *root,
                            norm_m,
                            i + 1 as int,
                            norm_m.len() as int,
                        );
                    }
                    return Err(GobanError::MissingVariation);
                }
                let child: &'a GameNode = &cur.children[n as usize];
                match goban.process_node(child) {
                    Ok(_) => {},
                    Err(e) => {
                        proof {
                            lemma_run_steps_error_stable(
                                v0,
                                *root,
                                norm_m,
                                i + 1 as int,
                                norm_m.len() as int,
                            );
                        }
                        return Err(e);
                    },
                }
                cur = child;
            },
            Step::Last => {
                while cur.children.len() > 0
                    invariant
                        goban.wf(),
                        spec_walk_last(vi, node_i) == spec_walk_last(goban@, *cur),
                    decreases cur.count(),
                {
                    let ghost vb = goban@;
                    let ghost nb = *cur;
                    let child: &'a GameNode = &cur.children[0];
                    proof {
                        assert(child.count() < cur.count()) by {
                            crate::sgf_traversal::lemma_count_seq_member(cur.children@, 0);
                        }
                    }
                    match goban.process_node(child) {
                        Ok(_) => {},
                        Err(e) => {
                            proof {
                                assert(spec_walk_last(vb, nb).2 == Some(e));
                                assert(spec_walk_last(vi, node_i).2 == Some(e));
                                lemma_run_steps_error_stable(
                                    v0,
                                    *root,
                                    norm_m,
                                    i + 1 as int,
                                    norm_m.len() as int,
                                );
                            }
                            return Err(e);
                        },
                    }
                    cur = child;
                    proof {
                        assert(spec_walk_last(vb, nb) == spec_walk_last(goban@, *cur));
                    }
                }
            },
        }
        proof {
            assert(spec_run_steps(v0, *root, norm_m, i + 1 as int).2 is None);
            assert(goban@ == spec_run_steps(v0, *root, norm_m, i + 1 as int).0);
            assert(*cur == spec_run_steps(v0, *root, norm_m, i + 1 as int).1);
        }
        i = i + 1;
    }
    Ok((goban, cur))
}

} // verus!
