use vstd::prelude::*;

use crate::errors::GobanError;
use crate::sgf::GameNode;

verus! {

broadcast use vstd::seq_lib::group_seq_properties;

/// The mathematical content of one yielded traversal step.
#[verifier::ext_equal]
pub ghost struct TravRec {
    /// The tree node this step visits.
    pub node: GameNode,
    /// Position of the node within its own variation.
    pub variation_node_number: int,
    /// The variation id of the line this node continues.
    pub variation: int,
    /// The variation id the line branched away from.
    pub parent_variation: int,
    /// Which child of its parent this node is.
    pub branch_number: int,
    /// Whether the node's parent was a fork (the root counts as one).
    pub is_variation_root: bool,
    /// For each ancestor fork, whether a later sibling branch is still open.
    pub branches: Seq<bool>,
}

/// The sum of subtree sizes of a frame list.
pub open spec fn count_stack(frames: Seq<TravRec>) -> nat {
    GameNode::count_seq(frames.map_values(|f: TravRec| f.node))
}

/// Minting: a frame popped at a fork's non-first branch receives the next
/// fresh variation id, with the fork's own line as its parent.
pub open spec fn process_frame(f: TravRec, counter: int) -> (TravRec, int) {
    if f.is_variation_root && f.branch_number != 0 {
        (TravRec { variation: counter + 1, parent_variation: f.variation, ..f }, counter + 1)
    } else {
        (f, counter)
    }
}

/// The frames a visited node pushes for its children, in child order.
pub open spec fn child_frames(r: TravRec) -> Seq<TravRec> {
    let n = r.node.children@.len() as int;
    Seq::new(
        n as nat,
        |i: int|
            TravRec {
                node: r.node.children@[i],
                variation_node_number: r.variation_node_number + 1,
                variation: r.variation,
                parent_variation: r.parent_variation,
                branch_number: i,
                is_variation_root: n > 1,
                branches: if n > 1 {
                    r.branches.push(i != n - 1)
                } else {
                    r.branches
                },
            },
    )
}

/// Concatenation splits a frame-list sum.
pub proof fn lemma_count_seq_concat(a: Seq<GameNode>, b: Seq<GameNode>)
    ensures
        GameNode::count_seq(a + b) == GameNode::count_seq(a) + GameNode::count_seq(b),
    decreases a.len(),
{
    if a.len() == 0 {
        assert(a + b =~= b);
    } else {
        assert((a + b)[0] == a[0]);
        assert((a + b).skip(1) =~= a.skip(1) + b);
        lemma_count_seq_concat(a.skip(1), b);
    }
}

/// Reversal keeps a frame-list sum.
pub proof fn lemma_count_seq_reverse(s: Seq<GameNode>)
    ensures
        GameNode::count_seq(s.reverse()) == GameNode::count_seq(s),
    decreases s.len(),
{
    if s.len() > 0 {
        let r = s.reverse();
        assert(r[0] == s.last());
        assert(r.skip(1) =~= s.drop_last().reverse()) by {
            assert forall|j: int| 0 <= j < s.len() - 1 implies r.skip(1)[j] == s.drop_last().reverse()[j] by {
                assert(r.skip(1)[j] == r[j + 1]);
                assert(r[j + 1] == s[s.len() - 1 - (j + 1)]);
                assert(s.drop_last().reverse()[j] == s.drop_last()[s.len() - 2 - j]);
            }
        }
        lemma_count_seq_reverse(s.drop_last());
        assert(s =~= s.drop_last() + seq![s.last()]);
        lemma_count_seq_concat(s.drop_last(), seq![s.last()]);
        assert(GameNode::count_seq(seq![s.last()]) == s.last().count()) by {
            reveal_with_fuel(GameNode::count_seq, 2);
            assert(seq![s.last()].skip(1) =~= Seq::<GameNode>::empty());
        }
    }
}

/// Popping a frame and pushing its children strictly shrinks the sum.
pub proof fn lemma_count_stack_step(stack: Seq<TravRec>, rec: TravRec)
    requires
        stack.len() > 0,
        rec.node == stack.last().node,
    ensures
        count_stack(stack.drop_last() + child_frames(rec).reverse()) + 1 == count_stack(stack),
{
    let nodes = stack.map_values(|f: TravRec| f.node);
    let rest = stack.drop_last();
    let rest_nodes = rest.map_values(|f: TravRec| f.node);
    let added = child_frames(rec).reverse();
    let added_nodes = added.map_values(|f: TravRec| f.node);
    assert((rest + added).map_values(|f: TravRec| f.node) =~= rest_nodes + added_nodes);
    lemma_count_seq_concat(rest_nodes, added_nodes);
    assert(added_nodes =~= child_frames(rec).map_values(|f: TravRec| f.node).reverse()) by {
        let cf = child_frames(rec);
        let cn = cf.map_values(|f: TravRec| f.node);
        assert forall|j: int| 0 <= j < cf.len() implies added_nodes[j] == cn.reverse()[j] by {
            assert(added_nodes[j] == added[j].node);
            assert(added[j] == cf[cf.len() - 1 - j]);
            assert(cn.reverse()[j] == cn[cf.len() - 1 - j]);
        }
    }
    assert(child_frames(rec).map_values(|f: TravRec| f.node) =~= rec.node.children@);
    lemma_count_seq_reverse(rec.node.children@);
    assert(nodes =~= rest_nodes + seq![stack.last().node]);
    lemma_count_seq_concat(rest_nodes, seq![stack.last().node]);
    assert(GameNode::count_seq(seq![stack.last().node]) == stack.last().node.count()) by {
        reveal_with_fuel(GameNode::count_seq, 2);
        assert(seq![stack.last().node].skip(1) =~= Seq::<GameNode>::empty());
    }
}

/// The complete traversal stream produced from a frame stack: the stack's
/// last frame is visited (minting a variation id if due), its children are
/// pushed in reverse, and the walk continues.
pub open spec fn run_stack(stack: Seq<TravRec>, counter: int) -> Seq<TravRec>
    decreases count_stack(stack),
    when count_stack_decreases(stack)
    via run_stack_decreases
{
    if stack.len() == 0 {
        Seq::empty()
    } else {
        let (rec, c2) = process_frame(stack.last(), counter);
        seq![rec] + run_stack(stack.drop_last() + child_frames(rec).reverse(), c2)
    }
}

/// `run_stack`'s recursion is well-founded on the subtree-size sum.
pub open spec fn count_stack_decreases(stack: Seq<TravRec>) -> bool {
    true
}

#[via_fn]
proof fn run_stack_decreases(stack: Seq<TravRec>, counter: int) {
    if stack.len() > 0 {
        let (rec, c2) = process_frame(stack.last(), counter);
        lemma_count_stack_step(stack, rec);
    }
}

/// The frame the whole traversal starts from.
pub open spec fn root_frame(node: GameNode) -> TravRec {
    TravRec {
        node,
        variation_node_number: 0,
        variation: 0,
        parent_variation: 0,
        branch_number: 0,
        is_variation_root: true,
        branches: Seq::empty(),
    }
}

/// Every traversal step of a game tree, in depth-first pre-order.
pub open spec fn spec_traversal(node: GameNode) -> Seq<TravRec> {
    run_stack(seq![root_frame(node)], 0)
}

/// Concatenation splits a frame-stack sum.
pub proof fn lemma_count_stack_concat(a: Seq<TravRec>, b: Seq<TravRec>)
    ensures
        count_stack(a + b) == count_stack(a) + count_stack(b),
{
    let an = a.map_values(|f: TravRec| f.node);
    let bn = b.map_values(|f: TravRec| f.node);
    assert((a + b).map_values(|f: TravRec| f.node) =~= an + bn);
    lemma_count_seq_concat(an, bn);
}

/// The frames pushed for a node's children cost the node's forest.
pub proof fn lemma_count_stack_children(rec: TravRec)
    ensures
        count_stack(child_frames(rec).reverse()) == GameNode::count_seq(rec.node.children@),
{
    let added = child_frames(rec).reverse();
    let added_nodes = added.map_values(|f: TravRec| f.node);
    assert(added_nodes =~= child_frames(rec).map_values(|f: TravRec| f.node).reverse()) by {
        let cf = child_frames(rec);
        let cn = cf.map_values(|f: TravRec| f.node);
        assert forall|j: int| 0 <= j < cf.len() implies added_nodes[j] == cn.reverse()[j] by {
            assert(added_nodes[j] == added[j].node);
            assert(added[j] == cf[cf.len() - 1 - j]);
            assert(cn.reverse()[j] == cn[cf.len() - 1 - j]);
        }
    }
    assert(child_frames(rec).map_values(|f: TravRec| f.node) =~= rec.node.children@);
    lemma_count_seq_reverse(rec.node.children@);
}

/// A member of a forest costs no more than the whole forest.
pub proof fn lemma_count_seq_member(s: Seq<GameNode>, i: int)
    requires
        0 <= i < s.len(),
    ensures
        s[i].count() <= GameNode::count_seq(s),
    decreases i,
{
    if i == 0 {
    } else {
        assert(s.skip(1)[i - 1] == s[i]);
        lemma_count_seq_member(s.skip(1), i - 1);
    }
}

/// A prefix of a forest costs no more than the whole forest.
pub proof fn lemma_count_seq_take(s: Seq<GameNode>, j: int)
    requires
        0 <= j <= s.len(),
    ensures
        GameNode::count_seq(s.take(j)) <= GameNode::count_seq(s),
{
    assert(s =~= s.take(j) + s.skip(j));
    lemma_count_seq_concat(s.take(j), s.skip(j));
}

/// One step of the depth-first walk over a game record.
pub struct SgfTraversalNode<'a> {
    /// The visited tree node.
    pub sgf_node: &'a GameNode,
    /// Position of the node within its own variation.
    pub variation_node_number: u64,
    /// The variation id of the line this node continues.
    pub variation: u64,
    /// The variation id the line branched away from.
    pub parent_variation: u64,
    /// Which child of its parent this node is.
    pub branch_number: u64,
    /// Whether the node's parent was a fork (the root counts as one).
    pub is_variation_root: bool,
    /// For each ancestor fork, whether a later sibling branch is still open.
    pub branches: Vec<bool>,
}

/// The mathematical content of a yielded step.
pub open spec fn rec_of(n: SgfTraversalNode) -> TravRec {
    TravRec {
        node: *n.sgf_node,
        variation_node_number: n.variation_node_number as int,
        variation: n.variation as int,
        parent_variation: n.parent_variation as int,
        branch_number: n.branch_number as int,
        is_variation_root: n.is_variation_root,
        branches: n.branches@,
    }
}

/// The explicit-stack depth-first traversal of a game record, assigning
/// variation ids in pre-order.
pub struct SgfTraversal<'a> {
    stack: Vec<SgfTraversalNode<'a>>,
    variation: u64,
}

/// Copies a list of flags.
fn copy_flags(src: &Vec<bool>) -> (r: Vec<bool>)
    ensures
        r@ == src@,
{
    let mut r: Vec<bool> = Vec::new();
    let mut i: usize = 0;
    while i < src.len()
        invariant
            0 <= i <= src@.len(),
            r@ == src@.take(i as int),
        decreases src@.len() - i,
    {
        r.push(src[i]);
        proof {
            assert(src@.take(i + 1 as int) =~= src@.take(i as int).push(src@[i as int]));
        }
        i = i + 1;
    }
    proof {
        assert(src@.take(src@.len() as int) =~= src@);
    }
    r
}

impl<'a> SgfTraversal<'a> {
    /// The pending frames, deepest-to-pop last.
    pub closed spec fn frames(self) -> Seq<TravRec> {
        self.stack@.map_values(|n: SgfTraversalNode<'a>| rec_of(n))
    }

    /// The last variation id handed out so far.
    pub closed spec fn counter(self) -> int {
        self.variation as int
    }

    /// The counters still fit their machine words however far the walk goes.
    pub closed spec fn wf(self) -> bool {
        &&& self.counter() + count_stack(self.frames()) <= u64::MAX
        &&& forall|i: int|
            0 <= i < self.frames().len() ==> {
                let f = #[trigger] self.frames()[i];
                &&& f.variation_node_number + f.node.count() <= u64::MAX
                &&& f.variation <= self.counter()
                &&& f.parent_variation <= self.counter()
            }
    }

    /// Starts the walk at a game root.
    pub fn new(sgf_node: &'a GameNode) -> (t: Self)
        requires
            sgf_node.count() <= u64::MAX,
        ensures
            t.wf(),
            t.frames() == seq![root_frame(*sgf_node)],
            t.counter() == 0,
    {
        let mut stack: Vec<SgfTraversalNode<'a>> = Vec::new();
        stack.push(
            SgfTraversalNode {
                sgf_node,
                variation_node_number: 0,
                variation: 0,
                parent_variation: 0,
                branch_number: 0,
                is_variation_root: true,
                branches: Vec::new(),
            },
        );
        let t = SgfTraversal { stack, variation: 0 };
        proof {
            assert(t.frames() =~= seq![root_frame(*sgf_node)]);
            assert(count_stack(t.frames()) == sgf_node.count()) by {
                reveal_with_fuel(GameNode::count_seq, 2);
                assert(t.frames().map_values(|f: TravRec| f.node) =~= seq![*sgf_node]);
                assert(seq![*sgf_node].skip(1) =~= Seq::<GameNode>::empty());
            }
        }
        t
    }

    /// Yields the next step of the walk, minting a fresh variation id when a
    /// fork's non-first child is first visited, and queueing the visited
    /// node's children first-child-first.
    pub fn next(&mut self) -> (r: Option<SgfTraversalNode<'a>>)
        requires
            old(self).wf(),
        ensures
            final(self).wf(),
            old(self).frames().len() == 0 ==> r is None && *final(self) == *old(self),
            old(self).frames().len() > 0 ==> {
                let (rec, c2) = process_frame(old(self).frames().last(), old(self).counter());
                &&& r is Some
                &&& rec_of(r->0) == rec
                &&& final(self).frames() == old(self).frames().drop_last() + child_frames(
                    rec,
                ).reverse()
                &&& final(self).counter() == c2
            },
    {
        let stack_len = self.stack.len();
        if stack_len == 0 {
            return None;
        }
        let ghost frames0 = self.frames();
        let ghost counter0 = self.counter();
        proof {
            assert(frames0.last() == rec_of(self.stack@[stack_len - 1]));
            assert(count_stack(frames0) >= frames0.last().node.count()) by {
                let nodes = frames0.map_values(|f: TravRec| f.node);
                assert(nodes[nodes.len() - 1] == frames0.last().node);
                lemma_count_seq_member(nodes, nodes.len() - 1);
            }
        }
        let mut tn = self.stack.pop().unwrap();
        if tn.is_variation_root && tn.branch_number != 0 {
            self.variation = self.variation + 1;
            tn.parent_variation = tn.variation;
            tn.variation = self.variation;
        }
        let ghost rec = rec_of(tn);
        let ghost c2 = self.variation as int;
        proof {
            assert((rec, c2) == process_frame(frames0.last(), counter0));
            assert(self.frames() =~= frames0.drop_last());
            lemma_count_stack_step(frames0, rec);
        }
        let ghost rest = frames0.drop_last();
        proof {
            assert(self.frames() =~= rest + child_frames(rec).reverse().take(0));
            lemma_count_stack_concat(rest, child_frames(rec).reverse());
            lemma_count_stack_children(rec);
            assert(frames0.last().node.count() == 1 + GameNode::count_seq(
                frames0.last().node.children@,
            ));
        }
        let n = tn.sgf_node.children.len();
        let is_fork = n > 1;
        let mut j: usize = 0;
        while j < n
            invariant
                0 <= j <= n,
                n == rec.node.children@.len(),
                rec == rec_of(tn),
                is_fork == (n > 1),
                self.counter() == c2,
                self.frames() == rest + child_frames(rec).reverse().take(j as int),
                c2 + count_stack(rest) + GameNode::count_seq(rec.node.children@) + 1 <= u64::MAX
                    + 1,
                rec.variation_node_number + rec.node.count() <= u64::MAX,
                rec.variation <= c2,
                rec.parent_variation <= c2,
                forall|i: int|
                    0 <= i < rest.len() ==> {
                        let f = #[trigger] rest[i];
                        &&& f.variation_node_number + f.node.count() <= u64::MAX
                        &&& f.variation <= c2
                        &&& f.parent_variation <= c2
                    },
            decreases n - j,
        {
            let bn = n - 1 - j;
            let child: &'a GameNode = &tn.sgf_node.children[bn];
            let mut branches = copy_flags(&tn.branches);
            if is_fork {
                branches.push(bn != n - 1);
            }
            proof {
                lemma_count_seq_member(rec.node.children@, bn as int);
                assert(rec.node.count() == 1 + GameNode::count_seq(rec.node.children@));
            }
            let frame = SgfTraversalNode {
                sgf_node: child,
                variation_node_number: tn.variation_node_number + 1,
                variation: tn.variation,
                parent_variation: tn.parent_variation,
                branch_number: bn as u64,
                is_variation_root: is_fork,
                branches,
            };
            let ghost fr_before = self.frames();
            self.stack.push(frame);
            proof {
                assert(rec_of(frame) =~= child_frames(rec)[bn as int]);
                assert(child_frames(rec).reverse()[j as int] == child_frames(rec)[bn as int]);
                assert(self.frames() =~= fr_before.push(rec_of(frame)));
                assert(child_frames(rec).reverse().take(j + 1 as int) =~= child_frames(
                    rec,
                ).reverse().take(j as int).push(child_frames(rec).reverse()[j as int]));
                assert(self.frames() =~= rest + child_frames(rec).reverse().take(j + 1 as int));
            }
            j = j + 1;
        }
        proof {
            assert(child_frames(rec).reverse().take(n as int) =~= child_frames(rec).reverse());
            assert(self.frames() == rest + child_frames(rec).reverse());
            assert(count_stack(self.frames()) + 1 == count_stack(frames0));
            assert forall|i: int| 0 <= i < self.frames().len() implies {
                let f = #[trigger] self.frames()[i];
                &&& f.variation_node_number + f.node.count() <= u64::MAX
                &&& f.variation <= self.counter()
                &&& f.parent_variation <= self.counter()
            } by {
                let f = self.frames()[i];
                if i < rest.len() {
                    assert(f == rest[i]);
                } else {
                    let cfr = child_frames(rec).reverse();
                    assert(f == cfr[i - rest.len()]);
                    let ci = child_frames(rec).len() - 1 - (i - rest.len());
                    assert(cfr[i - rest.len()] == child_frames(rec)[ci]);
                    lemma_count_seq_member(rec.node.children@, ci);
                    assert(rec.node.count() == 1 + GameNode::count_seq(rec.node.children@));
                }
            }
        }
        Some(tn)
    }
}

/// Was a fresh variation id handed out at this step?
pub open spec fn minted(r: TravRec) -> bool {
    r.is_variation_root && r.branch_number != 0
}

/// How many of the first `k` steps minted a fresh id.
pub open spec fn mints_upto(s: Seq<TravRec>, k: int) -> int
    decreases k,
{
    if k <= 0 {
        0
    } else {
        mints_upto(s, k - 1) + if 0 <= k - 1 < s.len() && minted(s[k - 1]) {
            1int
        } else {
            0int
        }
    }
}

/// The frame-stack facts the numbering argument rides on.
pub open spec fn frames_ok(stack: Seq<TravRec>, counter: int) -> bool {
    forall|i: int|
        0 <= i < stack.len() ==> {
            let f = #[trigger] stack[i];
            &&& 0 <= f.variation <= counter
            &&& 0 <= f.parent_variation <= counter
            &&& (f.variation == 0 && f.parent_variation == 0) || f.parent_variation < f.variation
        }
}

/// Variation numbering: along the traversal stream, every step's id stays
/// within the ids handed out so far, a step that mints gets exactly the next
/// fresh id (so it is strictly larger than every id seen before it), and a
/// branched line always records a strictly smaller parent line.
pub proof fn lemma_run_stack_numbering(stack: Seq<TravRec>, counter: int)
    requires
        0 <= counter,
        frames_ok(stack, counter),
    ensures
        ({
            let out = run_stack(stack, counter);
            &&& forall|i: int|
                0 <= i < out.len() ==> (#[trigger] out[i]).variation <= counter + mints_upto(
                    out,
                    i + 1,
                )
            &&& forall|i: int|
                0 <= i < out.len() && minted(#[trigger] out[i]) ==> out[i].variation == counter
                    + mints_upto(out, i + 1)
            &&& forall|i: int|
                0 <= i < out.len() ==> 0 <= (#[trigger] out[i]).parent_variation && 0
                    <= out[i].variation && (((out[i]).variation == 0 && out[i].parent_variation
                    == 0) || out[i].parent_variation < out[i].variation)
        }),
    decreases count_stack(stack),
{
    if stack.len() > 0 {
        let out = run_stack(stack, counter);
        let (rec, c2) = process_frame(stack.last(), counter);
        lemma_count_stack_step(stack, rec);
        let stack2 = stack.drop_last() + child_frames(rec).reverse();
        let tail = run_stack(stack2, c2);
        assert(out == seq![rec] + tail);
        assert(frames_ok(stack2, c2)) by {
            assert forall|i: int| 0 <= i < stack2.len() implies {
                let f = #[trigger] stack2[i];
                &&& f.variation <= c2
                &&& f.parent_variation <= c2
                &&& (f.variation == 0 && f.parent_variation == 0) || f.parent_variation
                    < f.variation
            } by {
                if i < stack.drop_last().len() {
                    assert(stack2[i] == stack[i]);
                } else {
                    let cfr = child_frames(rec).reverse();
                    let ci = child_frames(rec).len() - 1 - (i - stack.drop_last().len());
                    assert(stack2[i] == cfr[i - stack.drop_last().len()]);
                    assert(cfr[i - stack.drop_last().len()] == child_frames(rec)[ci]);
                }
            }
        }
        lemma_run_stack_numbering(stack2, c2);
        assert forall|i: int| 0 <= i < out.len() implies (#[trigger] out[i]).variation <= counter
            + mints_upto(out, i + 1) && (minted(out[i]) ==> out[i].variation == counter
            + mints_upto(out, i + 1)) && 0 <= out[i].parent_variation && 0 <= out[i].variation && ((
        (out[i]).variation == 0 && out[i].parent_variation == 0) || out[i].parent_variation
            < out[i].variation) by {
            lemma_mints_upto_cons(rec, tail, i + 1);
            if i == 0 {
                assert(out[0] == rec);
            } else {
                assert(out[i] == tail[i - 1]);
            }
        }
    }
}

/// Counting mints through the first element.
proof fn lemma_mints_upto_cons(head: TravRec, tail: Seq<TravRec>, k: int)
    requires
        1 <= k <= tail.len() + 1,
    ensures
        mints_upto(seq![head] + tail, k) == (if minted(head) {
            1int
        } else {
            0int
        }) + mints_upto(tail, k - 1),
    decreases k,
{
    let s = seq![head] + tail;
    if k == 1 {
        reveal_with_fuel(mints_upto, 2);
        assert(s[0] == head);
    } else {
        lemma_mints_upto_cons(head, tail, k - 1);
        assert(s[k - 1] == tail[k - 2]);
    }
}

/// Mint counts only grow along the stream.
pub proof fn lemma_mints_upto_monotone(s: Seq<TravRec>, k1: int, k2: int)
    requires
        k1 <= k2,
    ensures
        mints_upto(s, k1) <= mints_upto(s, k2),
    decreases k2 - k1,
{
    if k1 < k2 {
        lemma_mints_upto_monotone(s, k1, k2 - 1);
    }
}

/// The numbering facts of one whole traversal, stated where callers use
/// them: the stream starts at the root with variation 0; a step that mints
/// an id gets one strictly larger than every id appearing before it; and
/// every branched line records a strictly smaller parent line.
pub proof fn lemma_traversal_numbering(node: GameNode)
    ensures
        ({
            let out = spec_traversal(node);
            &&& out.len() > 0
            &&& out[0].node == node
            &&& out[0].variation == 0
            &&& out[0].variation_node_number == 0
            &&& forall|i: int, j: int|
                0 <= j < i < out.len() && minted(#[trigger] out[i]) ==> (#[trigger] out[j]).variation
                    < out[i].variation
            &&& forall|i: int| 0 <= i < out.len() ==> parent_below(#[trigger] out[i])
        }),
{
    let stack = seq![root_frame(node)];
    assert(frames_ok(stack, 0)) by {
        assert(stack[0] == root_frame(node));
    }
    lemma_run_stack_numbering(stack, 0);
    let out = spec_traversal(node);
    assert(stack.last() == root_frame(node));
    assert(out[0] == process_frame(root_frame(node), 0).0);
    assert forall|i: int, j: int|
        0 <= j < i < out.len() && minted(#[trigger] out[i]) implies (#[trigger] out[j]).variation
        < out[i].variation by {
        lemma_mints_upto_monotone(out, j + 1, i);
        assert(mints_upto(out, i + 1) == mints_upto(out, i) + 1);
    }
}

/// What a fork hands to its children: the first child continues the fork's
/// own variation, and every later child, once visited, records the fork's
/// variation as its parent line.
pub proof fn lemma_fork_children(r: TravRec, i: int, counter: int)
    requires
        0 <= i < r.node.children@.len(),
    ensures
        i == 0 ==> process_frame(child_frames(r)[i], counter).0.variation == r.variation,
        (i != 0 && r.node.children@.len() > 1) ==> process_frame(
            child_frames(r)[i],
            counter,
        ).0.parent_variation == r.variation,
{
}

/// Rebuilds a traversal step (the tree node stays borrowed).
fn copy_step<'a>(n: &SgfTraversalNode<'a>) -> (r: SgfTraversalNode<'a>)
    ensures
        rec_of(r) == rec_of(*n),
{
    let r = SgfTraversalNode {
        sgf_node: n.sgf_node,
        variation_node_number: n.variation_node_number,
        variation: n.variation,
        parent_variation: n.parent_variation,
        branch_number: n.branch_number,
        is_variation_root: n.is_variation_root,
        branches: copy_flags(&n.branches),
    };
    proof {
        assert(rec_of(r) =~= rec_of(*n));
    }
    r
}

/// Materializes the whole depth-first traversal of a game record.
pub fn collect_traversal<'a>(sgf_node: &'a GameNode) -> (r: Vec<SgfTraversalNode<'a>>)
    requires
        sgf_node.count() <= u64::MAX,
    ensures
        r@.map_values(|n: SgfTraversalNode<'a>| rec_of(n)) == spec_traversal(*sgf_node),
{
    let ghost full = spec_traversal(*sgf_node);
    let mut t = SgfTraversal::new(sgf_node);
    let mut out: Vec<SgfTraversalNode<'a>> = Vec::new();
    proof {
        assert(out@.map_values(|n: SgfTraversalNode<'a>| rec_of(n)) =~= Seq::<TravRec>::empty());
        assert(Seq::<TravRec>::empty() + full =~= full);
    }
    loop
        invariant_except_break
            t.wf(),
            out@.map_values(|n: SgfTraversalNode<'a>| rec_of(n)) + run_stack(
                t.frames(),
                t.counter(),
            ) == full,
        ensures
            out@.map_values(|n: SgfTraversalNode<'a>| rec_of(n)) == full,
        decreases count_stack(t.frames()),
    {
        let ghost frames0 = t.frames();
        let ghost counter0 = t.counter();
        let ghost done0 = out@.map_values(|n: SgfTraversalNode<'a>| rec_of(n));
        match t.next() {
            Some(n) => {
                out.push(n);
                proof {
                    let (rec, c2) = process_frame(frames0.last(), counter0);
                    lemma_count_stack_step(frames0, rec);
                    assert(run_stack(frames0, counter0) == seq![rec] + run_stack(
                        t.frames(),
                        t.counter(),
                    ));
                    assert(out@.map_values(|m: SgfTraversalNode<'a>| rec_of(m)) =~= done0.push(
                        rec,
                    ));
                    assert(done0.push(rec) + run_stack(t.frames(), t.counter()) =~= done0 + (
                    seq![rec] + run_stack(t.frames(), t.counter())));
                }
            },
            None => {
                proof {
                    assert(run_stack(t.frames(), t.counter()) =~= Seq::<TravRec>::empty());
                    assert(done0 + Seq::<TravRec>::empty() =~= done0);
                }
                break ;
            },
        }
    }
    out
}

/// Does a step open a variation line: its parent forked (the root counts).
pub open spec fn is_var_root(r: TravRec) -> bool {
    r.is_variation_root
}

/// The steps that open each variation line, in traversal order.
pub fn variation_roots<'a>(sgf_node: &'a GameNode) -> (r: Vec<SgfTraversalNode<'a>>)
    requires
        sgf_node.count() <= u64::MAX,
    ensures
        r@.map_values(|n: SgfTraversalNode<'a>| rec_of(n)) == spec_traversal(*sgf_node).filter(
            |t: TravRec| is_var_root(t),
        ),
{
    let cv = collect_traversal(sgf_node);
    let ghost full = spec_traversal(*sgf_node);
    let mut out: Vec<SgfTraversalNode<'a>> = Vec::new();
    let mut i: usize = 0;
    proof {
        reveal(Seq::filter);
        assert(out@.map_values(|n: SgfTraversalNode<'a>| rec_of(n)) =~= full.take(0).filter(
            |t: TravRec| is_var_root(t),
        ));
    }
    while i < cv.len()
        invariant
            0 <= i <= cv@.len(),
            cv@.map_values(|n: SgfTraversalNode<'a>| rec_of(n)) == full,
            out@.map_values(|n: SgfTraversalNode<'a>| rec_of(n)) == full.take(i as int).filter(
                |t: TravRec| is_var_root(t),
            ),
        decreases cv@.len() - i,
    {
        let ghost done0 = out@.map_values(|n: SgfTraversalNode<'a>| rec_of(n));
        proof {
            reveal(Seq::filter);
            assert(full.take(i + 1 as int) =~= full.take(i as int).push(full[i as int]));
            assert(full.take(i + 1 as int).drop_last() =~= full.take(i as int));
            assert(full[i as int] == rec_of(cv@[i as int]));
        }
        if cv[i].is_variation_root {
            let copied = copy_step(&cv[i]);
            out.push(copied);
            proof {
                assert(out@.map_values(|n: SgfTraversalNode<'a>| rec_of(n)) =~= done0.push(
                    full[i as int],
                ));
            }
        }
        i = i + 1;
    }
    proof {
        assert(full.take(full.len() as int) =~= full);
    }
    out
}

/// The longest prefix whose variation ids stay at or below `t`.
pub open spec fn take_le(s: Seq<TravRec>, t: int) -> Seq<TravRec>
    decreases s.len(),
{
    if s.len() == 0 {
        Seq::empty()
    } else if s[0].variation <= t {
        seq![s[0]] + take_le(s.skip(1), t)
    } else {
        Seq::empty()
    }
}

/// The variation-opening steps with ids at or below `t`, in order.
pub open spec fn roots_cut(s: Seq<TravRec>, t: int) -> Seq<TravRec> {
    take_le(s.filter(|r: TravRec| is_var_root(r)), t)
}

/// Does the id `t` open some line among these steps?
pub open spec fn variation_seen(rs: Seq<TravRec>, t: int) -> bool {
    exists|i: int| 0 <= i < rs.len() && (#[trigger] rs[i]).variation == t
}

/// The parent line recorded for variation `v`: the last opening step of
/// line `v` decides (absent lines report the root line).
pub open spec fn parent_entry(rs: Seq<TravRec>, v: int) -> int
    decreases rs.len(),
{
    if rs.len() == 0 {
        0
    } else if rs.last().variation == v {
        rs.last().parent_variation
    } else {
        parent_entry(rs.drop_last(), v)
    }
}

/// Where line `v` starts: the least node number among its opening steps.
pub open spec fn start_entry(rs: Seq<TravRec>, v: int) -> int
    decreases rs.len(),
{
    if rs.len() == 0 {
        u64::MAX as int
    } else {
        let rest = start_entry(rs.drop_last(), v);
        if rs.last().variation == v && rs.last().variation_node_number < rest {
            rs.last().variation_node_number
        } else {
            rest
        }
    }
}

/// The ancestor lines of variation `v`, target-first: each entry pairs a
/// line id with the node number where that line starts.
pub open spec fn chain_to_root(rs: Seq<TravRec>, v: int, fuel: nat) -> Seq<(int, int)>
    decreases fuel,
{
    if v <= 0 || fuel == 0 {
        Seq::empty()
    } else {
        seq![(v, start_entry(rs, v))] + chain_to_root(rs, parent_entry(rs, v), (fuel - 1) as nat)
    }
}

/// The splice: walking the id-bounded stream, the line of interest switches
/// to the next chain_list entry once its start node number is reached, and only
/// steps on the current line of interest are kept.
pub open spec fn splice(
    s: Seq<TravRec>,
    cur: int,
    nv: int,
    nn: int,
    pending: Seq<(int, int)>,
) -> Seq<TravRec>
    decreases s.len(),
{
    if s.len() == 0 {
        Seq::empty()
    } else {
        let r = s[0];
        let sw = r.variation == cur && r.variation_node_number >= nn;
        let cur2 = if sw {
            nv
        } else {
            cur
        };
        let nv2 = if sw && pending.len() > 0 {
            pending.last().0
        } else {
            nv
        };
        let nn2 = if sw && pending.len() > 0 {
            pending.last().1
        } else {
            nn
        };
        let p2 = if sw && pending.len() > 0 {
            pending.drop_last()
        } else {
            pending
        };
        (if r.variation == cur2 {
            seq![r]
        } else {
            Seq::empty()
        }) + splice(s.skip(1), cur2, nv2, nn2, p2)
    }
}

/// The node sequence of one variation: every node of the target line,
/// preceded by the ancestor-line nodes leading to it.
pub open spec fn spec_variation_nodes(full: Seq<TravRec>, t: int) -> Seq<TravRec> {
    let rc = roots_cut(full, t);
    let ch = chain_to_root(rc, t, (t + 1) as nat);
    let nv0 = if ch.len() > 0 {
        ch.last().0
    } else {
        0
    };
    let nn0 = if ch.len() > 0 {
        ch.last().1
    } else {
        0
    };
    let pending0 = if ch.len() > 0 {
        ch.drop_last()
    } else {
        Seq::empty()
    };
    splice(take_le(full, t), 0, nv0, nn0, pending0)
}

/// A bounded prefix never outgrows the original.
pub proof fn lemma_take_le_len(s: Seq<TravRec>, t: int)
    ensures
        take_le(s, t).len() <= s.len(),
    decreases s.len(),
{
    if s.len() > 0 && s[0].variation <= t {
        lemma_take_le_len(s.skip(1), t);
    }
}

/// Elements of a bounded prefix are the original elements.
pub proof fn lemma_take_le_prefix(s: Seq<TravRec>, t: int, j: int)
    requires
        0 <= j < take_le(s, t).len(),
    ensures
        take_le(s, t).len() <= s.len(),
        take_le(s, t)[j] == s[j],
    decreases s.len(),
{
    lemma_take_le_len(s, t);
    if s.len() > 0 && s[0].variation <= t {
        if j > 0 {
            lemma_take_le_prefix(s.skip(1), t, j - 1);
            assert(take_le(s, t)[j] == take_le(s.skip(1), t)[j - 1]);
            assert(s.skip(1)[j - 1] == s[j]);
        }
    }
}

/// A bounded prefix is literally a prefix.
pub proof fn lemma_take_le_characterize(s: Seq<TravRec>, t: int, k: int)
    requires
        0 <= k <= s.len(),
        forall|j: int| 0 <= j < k ==> (#[trigger] s[j]).variation <= t,
        k == s.len() || s[k].variation > t,
    ensures
        take_le(s, t) == s.take(k),
    decreases s.len(),
{
    if s.len() == 0 {
        assert(s.take(0) =~= Seq::<TravRec>::empty());
    } else if k == 0 {
        assert(s.take(0) =~= Seq::<TravRec>::empty());
    } else {
        assert(s[0].variation <= t);
        assert forall|j: int| 0 <= j < k - 1 implies (#[trigger] s.skip(1)[j]).variation <= t by {
            assert(s.skip(1)[j] == s[j + 1]);
        }
        if k - 1 < s.skip(1).len() {
            assert(s.skip(1)[k - 1] == s[k]);
        }
        lemma_take_le_characterize(s.skip(1), t, k - 1);
        assert(s.take(k) =~= seq![s[0]] + s.skip(1).take(k - 1));
    }
}

/// Every element a filter keeps comes from the original sequence.
pub proof fn lemma_filter_member(s: Seq<TravRec>, pred: spec_fn(TravRec) -> bool, j: int)
    requires
        0 <= j < s.filter(pred).len(),
    ensures
        s.contains(s.filter(pred)[j]),
    decreases s.len(),
{
    reveal(Seq::filter);
    if s.len() > 0 {
        let sub = s.drop_last().filter(pred);
        if j < sub.len() {
            lemma_filter_member(s.drop_last(), pred, j);
            let i = choose|i: int| 0 <= i < s.drop_last().len() && s.drop_last()[i] == sub[j];
            assert(s[i] == s.filter(pred)[j]);
        } else {
            assert(s[s.len() - 1] == s.filter(pred)[j]);
        }
    }
}

/// A line records a line before it (or line 0 itself) as its parent.
pub open spec fn parent_below(r: TravRec) -> bool {
    &&& 0 <= r.parent_variation
    &&& 0 <= r.variation
    &&& (r.variation == 0 && r.parent_variation == 0) || r.parent_variation < r.variation
}

/// `parent_entry` walks strictly down when every step obeys `parent_below`.
pub proof fn lemma_parent_entry_lt(rs: Seq<TravRec>, v: int)
    requires
        v > 0,
        forall|i: int| 0 <= i < rs.len() ==> parent_below(#[trigger] rs[i]),
    ensures
        0 <= parent_entry(rs, v) < v,
    decreases rs.len(),
{
    if rs.len() > 0 {
        assert(parent_below(rs[rs.len() - 1]));
        if rs.last().variation != v {
            assert(forall|i: int|
                0 <= i < rs.drop_last().len() ==> parent_below(#[trigger] rs.drop_last()[i]));
            lemma_parent_entry_lt(rs.drop_last(), v);
        }
    }
}

/// Scans for the parent line recorded for variation `v`.
fn find_parent<'a>(rs: &Vec<SgfTraversalNode<'a>>, v: u64) -> (r: u64)
    ensures
        r as int == parent_entry(rs@.map_values(|n: SgfTraversalNode<'a>| rec_of(n)), v as int),
{
    let ghost m = rs@.map_values(|n: SgfTraversalNode<'a>| rec_of(n));
    let mut i: usize = rs.len();
    proof {
        assert(m.take(i as int) =~= m);
    }
    while i > 0
        invariant
            0 <= i <= rs@.len(),
            m == rs@.map_values(|n: SgfTraversalNode<'a>| rec_of(n)),
            parent_entry(m, v as int) == parent_entry(m.take(i as int), v as int),
        decreases i,
    {
        i = i - 1;
        proof {
            assert(m.take(i + 1 as int).drop_last() =~= m.take(i as int));
            assert(m.take(i + 1 as int).last() == m[i as int]);
        }
        if rs[i].variation == v {
            return rs[i].parent_variation;
        }
    }
    proof {
        assert(m.take(0) =~= Seq::<TravRec>::empty());
    }
    0
}

/// Scans for the least node number among line `v`'s opening steps.
fn find_start<'a>(rs: &Vec<SgfTraversalNode<'a>>, v: u64) -> (r: u64)
    ensures
        r as int == start_entry(rs@.map_values(|n: SgfTraversalNode<'a>| rec_of(n)), v as int),
{
    let ghost m = rs@.map_values(|n: SgfTraversalNode<'a>| rec_of(n));
    let mut acc: u64 = u64::MAX;
    let mut i: usize = 0;
    proof {
        assert(m.take(0) =~= Seq::<TravRec>::empty());
    }
    while i < rs.len()
        invariant
            0 <= i <= rs@.len(),
            m == rs@.map_values(|n: SgfTraversalNode<'a>| rec_of(n)),
            acc as int == start_entry(m.take(i as int), v as int),
        decreases rs@.len() - i,
    {
        proof {
            assert(m.take(i + 1 as int).drop_last() =~= m.take(i as int));
            assert(m.take(i + 1 as int).last() == m[i as int]);
        }
        if rs[i].variation == v && rs[i].variation_node_number < acc {
            acc = rs[i].variation_node_number;
        }
        i = i + 1;
    }
    proof {
        assert(m.take(rs@.len() as int) =~= m);
    }
    acc
}

/// The nodes that make up one variation of the record: the ancestor lines
/// leading to the target line, spliced together with the target line
/// itself.  Fails with `MissingVariation` exactly when no line carries the
/// requested id.
pub fn variation_nodes<'a>(sgf_node: &'a GameNode, variation: u64) -> (r: Result<
    Vec<SgfTraversalNode<'a>>,
    GobanError,
>)
    requires
        sgf_node.count() <= u64::MAX,
    ensures
        ({
            let full = spec_traversal(*sgf_node);
            let rc = roots_cut(full, variation as int);
            match r {
                Ok(out) => variation_seen(rc, variation as int) && out@.map_values(
                    |n: SgfTraversalNode<'a>| rec_of(n),
                ) == spec_variation_nodes(full, variation as int),
                Err(e) => e == GobanError::MissingVariation && !variation_seen(
                    rc,
                    variation as int,
                ),
            }
        }),
{
    let ghost full = spec_traversal(*sgf_node);
    let roots = variation_roots(sgf_node);
    let ghost roots_m = roots@.map_values(|n: SgfTraversalNode<'a>| rec_of(n));
    // Cut the opening steps at the first id past the target.
    let mut rc: Vec<SgfTraversalNode<'a>> = Vec::new();
    let mut i: usize = 0;
    let mut stopped = false;
    while i < roots.len() && !stopped
        invariant
            0 <= i <= roots@.len(),
            roots_m == roots@.map_values(|n: SgfTraversalNode<'a>| rec_of(n)),
            rc@.map_values(|n: SgfTraversalNode<'a>| rec_of(n)) == roots_m.take(i as int),
            forall|j: int| 0 <= j < i ==> (#[trigger] roots_m[j]).variation <= variation as int,
            stopped ==> i < roots_m.len() && roots_m[i as int].variation > variation as int,
        decreases roots@.len() - i, (if stopped { 0int } else { 1int }),
    {
        let ghost rc0 = rc@.map_values(|n: SgfTraversalNode<'a>| rec_of(n));
        if roots[i].variation > variation {
            stopped = true;
        } else {
            let copied = copy_step(&roots[i]);
            rc.push(copied);
            proof {
                assert(rc@.map_values(|n: SgfTraversalNode<'a>| rec_of(n)) =~= rc0.push(
                    roots_m[i as int],
                ));
                assert(roots_m.take(i + 1 as int) =~= roots_m.take(i as int).push(
                    roots_m[i as int],
                ));
            }
            i = i + 1;
        }
    }
    proof {
        lemma_take_le_characterize(roots_m, variation as int, i as int);
        assert(rc@.map_values(|n: SgfTraversalNode<'a>| rec_of(n)) == roots_cut(
            full,
            variation as int,
        ));
    }
    let ghost rc_m = rc@.map_values(|n: SgfTraversalNode<'a>| rec_of(n));
    // Was the target id ever handed out?
    let mut seen = false;
    let mut k: usize = 0;
    while k < rc.len() && !seen
        invariant
            0 <= k <= rc@.len(),
            rc_m == rc@.map_values(|n: SgfTraversalNode<'a>| rec_of(n)),
            seen ==> k < rc_m.len() && rc_m[k as int].variation == variation as int,
            !seen ==> forall|j: int|
                0 <= j < k ==> (#[trigger] rc_m[j]).variation != variation as int,
        decreases rc@.len() - k, (if seen { 0int } else { 1int }),
    {
        if rc[k].variation == variation {
            seen = true;
            proof {
                assert(rc_m[k as int].variation == variation as int);
            }
        } else {
            k = k + 1;
        }
    }
    if !seen {
        return Err(GobanError::MissingVariation);
    }
    // The ancestor chain_list from the target back to the root line.
    proof {
        lemma_traversal_numbering(*sgf_node);
        assert forall|j: int| 0 <= j < rc_m.len() implies parent_below(#[trigger] rc_m[j]) by {
            let pred = |t: TravRec| is_var_root(t);
            let fr = full.filter(pred);
            assert(roots_m == fr);
            assert(rc_m[j] == roots_m[j]) by {
                assert(rc_m == take_le(roots_m, variation as int));
                lemma_take_le_prefix(roots_m, variation as int, j);
            }
            lemma_filter_member(full, pred, j);
            let fj = choose|fj: int| 0 <= fj < full.len() && full[fj] == fr[j];
            assert(parent_below(full[fj]));
        }
    }
    let mut chain_list: Vec<(u64, u64)> = Vec::new();
    let mut current: u64 = variation;
    let ghost fuel0: nat = (variation + 1) as nat;
    let ghost fuel: nat = fuel0;
    proof {
        assert(chain_list@.map_values(|e: (u64, u64)| (e.0 as int, e.1 as int)) + chain_to_root(
            rc_m,
            current as int,
            fuel,
        ) =~= chain_to_root(rc_m, variation as int, fuel0));
    }
    while current > 0
        invariant
            rc_m == rc@.map_values(|n: SgfTraversalNode<'a>| rec_of(n)),
            forall|j: int| 0 <= j < rc_m.len() ==> parent_below(#[trigger] rc_m[j]),
            (current as int) < fuel,
            chain_list@.map_values(|e: (u64, u64)| (e.0 as int, e.1 as int)) + chain_to_root(
                rc_m,
                current as int,
                fuel,
            ) == chain_to_root(rc_m, variation as int, fuel0),
        decreases current,
    {
        let ghost done0 = chain_list@.map_values(|e: (u64, u64)| (e.0 as int, e.1 as int));
        let st = find_start(&rc, current);
        chain_list.push((current, st));
        let prev = current;
        let parent = find_parent(&rc, current);
        proof {
            lemma_parent_entry_lt(rc_m, prev as int);
            assert(chain_to_root(rc_m, prev as int, fuel) == seq![
                (prev as int, start_entry(rc_m, prev as int)),
            ] + chain_to_root(rc_m, parent as int, (fuel - 1) as nat));
            assert(chain_list@.map_values(|e: (u64, u64)| (e.0 as int, e.1 as int)) =~= done0.push(
                (prev as int, st as int),
            ));
            assert(done0.push((prev as int, st as int)) + chain_to_root(
                rc_m,
                parent as int,
                (fuel - 1) as nat,
            ) =~= done0 + chain_to_root(rc_m, prev as int, fuel));
        }
        current = parent;
        proof {
            fuel = (fuel - 1) as nat;
        }
    }
    proof {
        assert(chain_to_root(rc_m, 0, fuel) =~= Seq::<(int, int)>::empty());
        assert(chain_list@.map_values(|e: (u64, u64)| (e.0 as int, e.1 as int)) + Seq::<
            (int, int),
        >::empty() =~= chain_list@.map_values(|e: (u64, u64)| (e.0 as int, e.1 as int)));
        assert(chain_list@.map_values(|e: (u64, u64)| (e.0 as int, e.1 as int)) == chain_to_root(
            rc_m,
            variation as int,
            fuel0,
        ));
    }
    // Cut the full stream at the first id past the target.
    let cv = collect_traversal(sgf_node);
    let mut cut: Vec<SgfTraversalNode<'a>> = Vec::new();
    let mut c: usize = 0;
    let mut cstopped = false;
    while c < cv.len() && !cstopped
        invariant
            0 <= c <= cv@.len(),
            full == cv@.map_values(|n: SgfTraversalNode<'a>| rec_of(n)),
            cut@.map_values(|n: SgfTraversalNode<'a>| rec_of(n)) == full.take(c as int),
            forall|j: int| 0 <= j < c ==> (#[trigger] full[j]).variation <= variation as int,
            cstopped ==> c < full.len() && full[c as int].variation > variation as int,
        decreases cv@.len() - c, (if cstopped { 0int } else { 1int }),
    {
        let ghost cut0 = cut@.map_values(|n: SgfTraversalNode<'a>| rec_of(n));
        if cv[c].variation > variation {
            cstopped = true;
        } else {
            let copied = copy_step(&cv[c]);
            cut.push(copied);
            proof {
                assert(cut@.map_values(|n: SgfTraversalNode<'a>| rec_of(n)) =~= cut0.push(
                    full[c as int],
                ));
                assert(full.take(c + 1 as int) =~= full.take(c as int).push(full[c as int]));
            }
            c = c + 1;
        }
    }
    proof {
        lemma_take_le_characterize(full, variation as int, c as int);
    }
    let ghost cut_m = cut@.map_values(|n: SgfTraversalNode<'a>| rec_of(n));
    // Splice the ancestor lines together.
    let ghost ch = chain_to_root(rc_m, variation as int, fuel0);
    let mut cur: u64 = 0;
    let mut next_var: u64 = 0;
    let mut next_vnn: u64 = 0;
    if chain_list.len() > 0 {
        let last = chain_list[chain_list.len() - 1];
        next_var = last.0;
        next_vnn = last.1;
        chain_list.pop();
    }
    proof {
        if ch.len() > 0 {
            assert(chain_list@.map_values(|e: (u64, u64)| (e.0 as int, e.1 as int)) =~= ch.drop_last());
        }
    }
    let mut out: Vec<SgfTraversalNode<'a>> = Vec::new();
    let mut p: usize = 0;
    proof {
        assert(out@.map_values(|n: SgfTraversalNode<'a>| rec_of(n)) + splice(
            cut_m.skip(0),
            cur as int,
            next_var as int,
            next_vnn as int,
            chain_list@.map_values(|e: (u64, u64)| (e.0 as int, e.1 as int)),
        ) =~= splice(
            cut_m,
            cur as int,
            next_var as int,
            next_vnn as int,
            chain_list@.map_values(|e: (u64, u64)| (e.0 as int, e.1 as int)),
        ));
    }
    let ghost target_splice = splice(
        cut_m,
        cur as int,
        next_var as int,
        next_vnn as int,
        chain_list@.map_values(|e: (u64, u64)| (e.0 as int, e.1 as int)),
    );
    while p < cut.len()
        invariant
            0 <= p <= cut@.len(),
            cut_m == cut@.map_values(|n: SgfTraversalNode<'a>| rec_of(n)),
            out@.map_values(|n: SgfTraversalNode<'a>| rec_of(n)) + splice(
                cut_m.skip(p as int),
                cur as int,
                next_var as int,
                next_vnn as int,
                chain_list@.map_values(|e: (u64, u64)| (e.0 as int, e.1 as int)),
            ) == target_splice,
        decreases cut@.len() - p,
    {
        let ghost done0 = out@.map_values(|n: SgfTraversalNode<'a>| rec_of(n));
        let ghost pend0 = chain_list@.map_values(|e: (u64, u64)| (e.0 as int, e.1 as int));
        let ghost rem = cut_m.skip(p as int);
        proof {
            assert(rem[0] == cut_m[p as int]);
            assert(rem.skip(1) =~= cut_m.skip(p + 1 as int));
        }
        let sw = cut[p].variation == cur && cut[p].variation_node_number >= next_vnn;
        if sw {
            cur = next_var;
            if chain_list.len() > 0 {
                let last = chain_list[chain_list.len() - 1];
                next_var = last.0;
                next_vnn = last.1;
                chain_list.pop();
                proof {
                    assert(chain_list@.map_values(|e: (u64, u64)| (e.0 as int, e.1 as int)) =~= pend0.drop_last());
                    assert(pend0.last() == (next_var as int, next_vnn as int));
                }
            }
        }
        if cut[p].variation == cur {
            let copied = copy_step(&cut[p]);
            out.push(copied);
            proof {
                assert(out@.map_values(|n: SgfTraversalNode<'a>| rec_of(n)) =~= done0.push(
                    cut_m[p as int],
                ));
                assert(done0.push(cut_m[p as int]) + splice(
                    cut_m.skip(p + 1 as int),
                    cur as int,
                    next_var as int,
                    next_vnn as int,
                    chain_list@.map_values(|e: (u64, u64)| (e.0 as int, e.1 as int)),
                ) =~= done0 + (seq![cut_m[p as int]] + splice(
                    cut_m.skip(p + 1 as int),
                    cur as int,
                    next_var as int,
                    next_vnn as int,
                    chain_list@.map_values(|e: (u64, u64)| (e.0 as int, e.1 as int)),
                )));
            }
        } else {
            proof {
                assert(Seq::<TravRec>::empty() + splice(
                    cut_m.skip(p + 1 as int),
                    cur as int,
                    next_var as int,
                    next_vnn as int,
                    chain_list@.map_values(|e: (u64, u64)| (e.0 as int, e.1 as int)),
                ) =~= splice(
                    cut_m.skip(p + 1 as int),
                    cur as int,
                    next_var as int,
                    next_vnn as int,
                    chain_list@.map_values(|e: (u64, u64)| (e.0 as int, e.1 as int)),
                ));
            }
        }
        p = p + 1;
    }
    proof {
        assert(cut_m.skip(cut_m.len() as int) =~= Seq::<TravRec>::empty());
        assert(splice(
            cut_m.skip(cut_m.len() as int),
            cur as int,
            next_var as int,
            next_vnn as int,
            chain_list@.map_values(|e: (u64, u64)| (e.0 as int, e.1 as int)),
        ) =~= Seq::<TravRec>::empty());
        assert(out@.map_values(|n: SgfTraversalNode<'a>| rec_of(n)) + Seq::<TravRec>::empty()
            =~= out@.map_values(|n: SgfTraversalNode<'a>| rec_of(n)));
        assert(out@.map_values(|n: SgfTraversalNode<'a>| rec_of(n)) == spec_variation_nodes(
            full,
            variation as int,
        ));
    }
    Ok(out)
}

} // verus!
