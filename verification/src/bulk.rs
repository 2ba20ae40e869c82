//! Building a balanced tree from a whole sequence in linear time.

use vstd::prelude::*;
use crate::breadth::{for_each_node_breadth_first, walked};
use crate::deps::{ascending, block_views, chunked, chunks, random_priority, sort_unstable};
use crate::model::Tree;
use crate::node::{Node, Priority, BLOCK_SIZE};

verus! {

/// Two to the power `e`.
pub open spec fn two_to(e: nat) -> nat
    decreases e,
{
    if e == 0 {
        1
    } else {
        2 * two_to((e - 1) as nat)
    }
}

/// A higher power of two is larger.
pub proof fn lemma_two_to_increases(low: nat, high: nat)
    requires
        low < high,
    ensures
        0 < two_to(low) < two_to(high),
    decreases high,
{
    if low + 1 < high {
        lemma_two_to_increases(low, (high - 1) as nat);
    } else if low > 0 {
        lemma_two_to_increases((low - 1) as nat, low);
    }
}

/// The blocks one after the other.
pub open spec fn joined<C>(blocks: Seq<Seq<C>>) -> Seq<C>
    decreases blocks.len(),
{
    if blocks.len() == 0 {
        Seq::empty()
    } else {
        joined(blocks.drop_last()) + blocks.last()
    }
}

/// The inner node with the placeholder priority 0 over two trees.
pub open spec fn paired<C>(left: Tree<C>, right: Tree<C>) -> Tree<C> {
    Tree::Inner(0, (left.len() + right.len()) as usize, Box::new(left), Box::new(right))
}

/// The stack once its two topmost trees have been paired for as long as they
/// report the same length.
pub open spec fn settled<C>(stack: Seq<Tree<C>>) -> Seq<Tree<C>>
    decreases stack.len(),
{
    if stack.len() >= 2 && stack[stack.len() - 1].len() == stack[stack.len() - 2].len() {
        settled(
            stack.drop_last().drop_last().push(
                paired(stack[stack.len() - 2], stack[stack.len() - 1]),
            ),
        )
    } else {
        stack
    }
}

/// The stack of trees, the bottom first, after the blocks have gone onto it
/// one by one, each as a leaf, the stack settling after each.
pub open spec fn stacked<C>(blocks: Seq<Seq<C>>) -> Seq<Tree<C>>
    decreases blocks.len(),
{
    if blocks.len() == 0 {
        Seq::empty()
    } else {
        settled(stacked(blocks.drop_last()).push(Tree::Leaf(blocks.last())))
    }
}

/// The one tree that is left of a stack when its two topmost trees are paired
/// until it holds no more than one.
pub open spec fn folded<C>(stack: Seq<Tree<C>>) -> Tree<C>
    recommends
        stack.len() > 0,
    decreases stack.len(),
{
    if stack.len() >= 2 {
        folded(
            stack.drop_last().drop_last().push(
                paired(stack[stack.len() - 2], stack[stack.len() - 1]),
            ),
        )
    } else {
        stack.last()
    }
}

/// The tree that the blocks are merged into: they go onto a stack, which is
/// folded in the end.
pub open spec fn merged<C>(blocks: Seq<Seq<C>>) -> Tree<C>
    recommends
        blocks.len() > 0,
{
    folded(stacked(blocks))
}

/// The models of the trees on a stack.
pub open spec fn stack_models<C>(stack: Seq<Box<Node<C>>>) -> Seq<Tree<C>> {
    Seq::new(stack.len(), |i: int| stack[i].model())
}

/// The blocks of the leaves of the trees on a stack, from the bottom up.
pub open spec fn stack_blocks<C>(stack: Seq<Box<Node<C>>>) -> Seq<Seq<C>>
    decreases stack.len(),
{
    if stack.len() == 0 {
        Seq::empty()
    } else {
        stack_blocks(stack.drop_last()) + stack.last().blocks()
    }
}

impl<C> Node<C> {
    /// Whether all the leaves lie `rank` levels below this node and each holds
    /// half a block: the tree is as flat as a tree over its blocks can be.
    pub open spec fn full(self, rank: nat) -> bool
        decreases self,
    {
        match self {
            Node::Leaf(block) => rank == 0 && block@.len() == BLOCK_SIZE / 2,
            Node::Inner(_, _, left, right) => {
                &&& rank > 0
                &&& left.full((rank - 1) as nat)
                &&& right.full((rank - 1) as nat)
            },
        }
    }

    /// Whether every inner node has the placeholder priority 0.
    pub open spec fn unranked(self) -> bool
        decreases self,
    {
        match self {
            Node::Leaf(_) => true,
            Node::Inner(priority, _, left, right) => {
                &&& priority == 0
                &&& left.unranked()
                &&& right.unranked()
            },
        }
    }

    /// Whether the priorities do not increase in breadth-first order: the inner
    /// nodes have, from the root on and level by level, the values of a sorted
    /// sequence from its last to its first.
    pub open spec fn ranked_breadth_first(self) -> bool {
        exists|shape: Node<C>, sorted: Seq<Priority>|
            {
                &&& ascending(sorted)
                &&& sorted.len() == shape.inner_count()
                &&& self == #[trigger] shape.relabeled_breadth_first(sorted)
            }
    }

    /// Whether the tree is at most one level deeper than the flattest tree over
    /// as many blocks: with inner nodes on `d` levels it has at least two to the
    /// power `d - 1` blocks.
    pub open spec fn balanced(self) -> bool {
        self.inner_depth() > 0 ==> two_to((self.inner_depth() - 1) as nat) <= self.blocks().len()
    }

    /// A full tree of rank `rank` has inner nodes on `rank` levels and two to
    /// the power `rank` blocks of half the block size each.
    pub proof fn lemma_full(self, rank: nat)
        requires
            self.full(rank),
            self.wf(),
        ensures
            self.inner_depth() == rank,
            self.blocks().len() == two_to(rank),
            self.spec_len() == (BLOCK_SIZE / 2) * two_to(rank),
            self.balanced(),
        decreases self,
    {
        let half = (BLOCK_SIZE / 2) as int;
        match self {
            Node::Leaf(_) => {
                assert(half * 1 == half) by (nonlinear_arith);
            },
            Node::Inner(_, _, left, right) => {
                left.lemma_full((rank - 1) as nat);
                right.lemma_full((rank - 1) as nat);
                let below = two_to((rank - 1) as nat) as int;
                assert(half * below + half * below == half * (2 * below)) by (nonlinear_arith);
            },
        }
    }

    /// A tree with placeholder priorities only has nothing to lose with them.
    pub proof fn lemma_unranked_model(self)
        requires
            self.unranked(),
        ensures
            self.model().without_priorities() == self.model(),
        decreases self,
    {
        match self {
            Node::Leaf(_) => {},
            Node::Inner(_, _, left, right) => {
                left.lemma_unranked_model();
                right.lemma_unranked_model();
            },
        }
    }

    /// Trees of the same shape differ in their priorities at most.
    pub proof fn lemma_same_shape_model(self, other: Node<C>)
        requires
            self.same_shape(other),
        ensures
            self.model().without_priorities() == other.model().without_priorities(),
        decreases self,
    {
        match self {
            Node::Leaf(_) => {},
            Node::Inner(_, _, left, right) => {
                match other {
                    Node::Leaf(_) => {},
                    Node::Inner(_, _, other_left, other_right) => {
                        left.lemma_same_shape_model(*other_left);
                        right.lemma_same_shape_model(*other_right);
                    },
                }
            },
        }
    }

    /// Full trees hold equally many elements exactly if they are equally deep,
    /// and none holds less than half a block.
    pub proof fn lemma_full_len(self, other: Node<C>)
        requires
            self.wf(),
            other.wf(),
            self.full(self.inner_depth()),
            other.full(other.inner_depth()),
        ensures
            self.spec_len() == other.spec_len() <==> self.inner_depth() == other.inner_depth(),
            self.spec_len() >= BLOCK_SIZE / 2,
    {
        let half = (BLOCK_SIZE / 2) as int;
        let mine = two_to(self.inner_depth()) as int;
        let theirs = two_to(other.inner_depth()) as int;
        self.lemma_full(self.inner_depth());
        other.lemma_full(other.inner_depth());
        lemma_two_to_increases(0, self.inner_depth() + 1);
        if self.inner_depth() < other.inner_depth() {
            lemma_two_to_increases(self.inner_depth(), other.inner_depth());
        }
        if other.inner_depth() < self.inner_depth() {
            lemma_two_to_increases(other.inner_depth(), self.inner_depth());
        }
        assert(mine < theirs ==> half * mine < half * theirs) by (nonlinear_arith)
            requires
                half > 0,
        ;
        assert(theirs < mine ==> half * theirs < half * mine) by (nonlinear_arith)
            requires
                half > 0,
        ;
        assert(half * mine >= half) by (nonlinear_arith)
            requires
                half > 0,
                mine >= 1,
        ;
    }

    /// The elements are those of the blocks, and there is one inner node less
    /// than there are blocks.
    pub proof fn lemma_blocks(self)
        ensures
            joined(self.blocks()) == self@,
            self.blocks().len() == self.inner_count() + 1,
        decreases self,
    {
        match self {
            Node::Leaf(block) => {
                assert(seq![block@].drop_last() =~= Seq::<Seq<C>>::empty());
                assert(joined(seq![block@]) =~= block@) by {
                    reveal_with_fuel(joined, 2);
                }
            },
            Node::Inner(_, _, left, right) => {
                left.lemma_blocks();
                right.lemma_blocks();
                lemma_joined_concat(left.blocks(), right.blocks());
            },
        }
    }

    /// Trees of the same shape have the same blocks.
    pub proof fn lemma_same_shape_blocks(self, other: Node<C>)
        requires
            self.same_shape(other),
        ensures
            self.blocks() == other.blocks(),
        decreases self,
    {
        match self {
            Node::Leaf(_) => {},
            Node::Inner(_, _, left, right) => {
                match other {
                    Node::Leaf(_) => {},
                    Node::Inner(_, _, other_left, other_right) => {
                        left.lemma_same_shape_blocks(*other_left);
                        right.lemma_same_shape_blocks(*other_right);
                    },
                }
            },
        }
    }
}

/// Joining two runs of blocks joins what each of them joins.
pub proof fn lemma_joined_concat<C>(first: Seq<Seq<C>>, second: Seq<Seq<C>>)
    ensures
        joined(first + second) == joined(first) + joined(second),
    decreases second.len(),
{
    if second.len() == 0 {
        assert(first + second =~= first);
        assert(joined(first) + joined(second) =~= joined(first));
    } else {
        lemma_joined_concat(first, second.drop_last());
        assert((first + second).drop_last() =~= first + second.drop_last());
        assert(joined(first + second) =~= joined(first) + joined(second));
    }
}

/// Cutting a sequence into blocks loses nothing and reorders nothing, and no
/// block is empty or longer than asked for.
pub proof fn lemma_chunked<C>(items: Seq<C>, size: nat)
    requires
        size > 0,
    ensures
        joined(chunked(items, size)) == items,
        items.len() == 0 <==> chunked(items, size).len() == 0,
        forall|i: int|
            0 <= i < chunked(items, size).len() ==> 0 < (#[trigger] chunked(items, size)[i]).len()
                <= size,
        forall|i: int|
            0 <= i < chunked(items, size).len() - 1 ==> (#[trigger] chunked(items, size)[i]).len()
                == size,
    decreases items.len(),
{
    if items.len() == 0 {
    } else if items.len() <= size {
        assert(seq![items].drop_last() =~= Seq::<Seq<C>>::empty());
        assert(joined(seq![items]) =~= items) by {
            reveal_with_fuel(joined, 2);
        }
    } else {
        let head = items.take(size as int);
        let rest = items.skip(size as int);
        lemma_chunked(rest, size);
        lemma_joined_concat(seq![head], chunked(rest, size));
        assert(seq![head].drop_last() =~= Seq::<Seq<C>>::empty());
        assert(joined(seq![head]) =~= head) by {
            reveal_with_fuel(joined, 2);
        }
        assert(head + rest =~= items);
    }
}

/// The first blocks hold no more elements than all of them.
pub proof fn lemma_joined_prefix<C>(blocks: Seq<Seq<C>>, count: int)
    requires
        0 <= count <= blocks.len(),
    ensures
        joined(blocks.take(count)).len() <= joined(blocks).len(),
    decreases blocks.len() - count,
{
    if count < blocks.len() {
        lemma_joined_prefix(blocks, count + 1);
        assert(blocks.take(count + 1).drop_last() =~= blocks.take(count));
    } else {
        assert(blocks.take(count) =~= blocks);
    }
}

/// What the trees on the stack satisfy: each is well formed, has placeholder
/// priorities only, and may become the child of a node of priority 0.
spec fn stack_wf<C>(stack: Seq<Box<Node<C>>>) -> bool {
    forall|i: int|
        0 <= i < stack.len() ==> {
            &&& (#[trigger] stack[i]).wf()
            &&& stack[i].fits_below(0)
            &&& stack[i].unranked()
        }
}

/// Whether the blocks are cut as `chunked` cuts them at half the block size:
/// all hold half a block, but for the last, which holds at most that.
pub open spec fn halved<C>(blocks: Seq<Seq<C>>) -> bool {
    &&& forall|i: int| 0 <= i < blocks.len() - 1 ==> (#[trigger] blocks[i]).len() == BLOCK_SIZE / 2
    &&& forall|i: int| 0 <= i < blocks.len() ==> (#[trigger] blocks[i]).len() <= BLOCK_SIZE / 2
}

/// Whether every tree on the stack is full.
spec fn stack_full<C>(stack: Seq<Box<Node<C>>>) -> bool {
    forall|i: int| 0 <= i < stack.len() ==> (#[trigger] stack[i]).full(stack[i].inner_depth())
}

/// Whether the trees get flatter from the bottom of the stack up to, not
/// including, the topmost `loose` trees.
spec fn stack_descends<C>(stack: Seq<Box<Node<C>>>, loose: int) -> bool {
    forall|i: int|
        0 <= i < stack.len() - 1 - loose ==> (#[trigger] stack[i]).inner_depth() > stack[i
            + 1].inner_depth()
}

/// The stack between two blocks: full trees, each flatter than the one below.
spec fn stack_strict<C>(stack: Seq<Box<Node<C>>>) -> bool {
    stack_full(stack) && stack_descends(stack, 0)
}

/// The stack while the topmost trees are merged: as `stack_strict`, but the
/// topmost tree may be as deep as the one below it.
spec fn stack_settling<C>(stack: Seq<Box<Node<C>>>) -> bool {
    &&& stack_full(stack)
    &&& stack_descends(stack, 1)
    &&& stack.len() >= 2 ==> stack[stack.len() - 2].inner_depth() >= stack.last().inner_depth()
}

/// The stack after a last block of less than half the block size: that block
/// lies as a leaf on top of a stack that is `stack_strict`.
spec fn stack_ended<C>(stack: Seq<Box<Node<C>>>) -> bool {
    &&& stack.len() >= 1
    &&& stack_strict(stack.drop_last())
    &&& *stack.last() is Leaf
    &&& stack.last().spec_len() < BLOCK_SIZE / 2
}

/// Merges blocks into one tree whose leaves are the blocks, in their order.
/// Each block becomes a leaf on a stack of trees. After each push the two
/// topmost trees are merged under a new inner node for as long as they hold the
/// same number of elements; what is left on the stack in the end is folded
/// from the right. The inner nodes have the placeholder priority 0. Without
/// blocks there is no tree.
pub fn merge_blocks<C>(blocks: Vec<Vec<C>>) -> (root: Option<Node<C>>)
    requires
        forall|i: int| 0 <= i < blocks@.len() ==> 0 < (#[trigger] blocks@[i])@.len() <= BLOCK_SIZE,
        joined(block_views(blocks@)).len() <= usize::MAX,
    ensures
        root is None <==> blocks@.len() == 0,
        root matches Some(tree) ==> {
            &&& tree.wf()
            &&& tree.model() == merged(block_views(blocks@))
            &&& tree.unranked()
            &&& tree.blocks() == block_views(blocks@)
            &&& halved(block_views(blocks@)) ==> tree.balanced()
        },
{
    let ghost given = blocks@;
    let ghost all = block_views(given);
    let mut tree: Vec<Box<Node<C>>> = Vec::new();
    for block in it: blocks
        invariant
            it.seq() == given,
            block_views(given) == all,
            joined(all).len() <= usize::MAX,
            forall|i: int| 0 <= i < all.len() ==> 0 < (#[trigger] all[i]).len() <= BLOCK_SIZE,
            stack_wf(tree@),
            stack_blocks(tree@) == all.take(it.index()),
            stack_models(tree@) == stacked(all.take(it.index())),
            halved(all) ==> stack_strict(tree@) || (it.index() == all.len() && stack_ended(tree@)),
    {
        let ghost consumed = it.index();
        assert(block@ == all[consumed]);
        let ghost below = tree@;
        tree.push(Box::new(Node::Leaf(block)));
        proof {
            assert(tree@.drop_last() =~= below);
            assert(stack_blocks(tree@) =~= all.take(consumed + 1));
            assert(all.take(consumed + 1).drop_last() =~= all.take(consumed));
            assert(stack_models(tree@) =~= stack_models(below).push(Tree::Leaf(block@)));
            if halved(all) {
                if block@.len() < BLOCK_SIZE / 2 {
                    assert(consumed + 1 == all.len());
                    assert(stack_ended(tree@));
                } else {
                    assert(tree@.last().full(0));
                    assert(stack_settling(tree@));
                }
            }
        }
        loop
            invariant
                0 <= consumed < all.len(),
                joined(all).len() <= usize::MAX,
                stack_wf(tree@),
                stack_blocks(tree@) == all.take(consumed + 1),
                settled(stack_models(tree@)) == stacked(all.take(consumed + 1)),
                halved(all) ==> stack_settling(tree@) || (consumed + 1 == all.len() && stack_ended(
                    tree@,
                )),
            ensures
                stack_wf(tree@),
                stack_blocks(tree@) == all.take(consumed + 1),
                stack_models(tree@) == stacked(all.take(consumed + 1)),
                halved(all) ==> stack_strict(tree@) || (consumed + 1 == all.len() && stack_ended(
                    tree@,
                )),
            decreases tree@.len(),
        {
            let l = tree.len();
            proof {
                if l >= 2 {
                    let top = tree@[l - 1];
                    let next = tree@[l - 2];
                    top.lemma_len();
                    next.lemma_len();
                    top.lemma_model_root();
                    next.lemma_model_root();
                    assert(stack_models(tree@)[l - 1] == top.model());
                    assert(stack_models(tree@)[l - 2] == next.model());
                    if halved(all) {
                        if stack_settling(tree@) {
                            next.lemma_full_len(*top);
                        } else {
                            assert(tree@.drop_last()[l - 2] == next);
                            next.lemma_full_len(*next);
                        }
                    }
                }
            }
            if l >= 2 && tree[l - 1].len() == tree[l - 2].len() {
                let ghost before = tree@;
                let right_node = tree.pop().unwrap();
                let left_node = tree.pop().unwrap();
                let ghost rest = tree@;
                proof {
                    assert(before.drop_last().drop_last() =~= rest);
                    assert(before.last() == right_node);
                    assert(before.drop_last().last() == left_node);
                    assert(stack_blocks(before) == stack_blocks(before.drop_last())
                        + right_node.blocks());
                    assert(stack_blocks(before.drop_last()) == stack_blocks(rest)
                        + left_node.blocks());
                    left_node.lemma_blocks();
                    right_node.lemma_blocks();
                    lemma_joined_concat(stack_blocks(rest), left_node.blocks());
                    lemma_joined_concat(
                        stack_blocks(rest) + left_node.blocks(),
                        right_node.blocks(),
                    );
                    lemma_joined_prefix(all, consumed + 1);
                }
                let size = left_node.len() + right_node.len();
                let merged = Node::Inner(0, size, left_node, right_node);
                tree.push(Box::new(merged));
                proof {
                    assert(tree@.drop_last() =~= rest);
                    left_node.lemma_model_root();
                    right_node.lemma_model_root();
                    assert(tree@.last().model() == paired(left_node.model(), right_node.model()));
                    assert(stack_models(tree@) =~= stack_models(before).drop_last().drop_last().push(
                        paired(stack_models(before)[l - 2], stack_models(before)[l - 1]),
                    ));
                    assert(tree@.last().blocks() == left_node.blocks() + right_node.blocks());
                    assert(stack_blocks(tree@) =~= stack_blocks(before));
                    if halved(all) {
                        assert(stack_settling(before));
                        assert(forall|i: int| 0 <= i < rest.len() ==> rest[i] == before[i]);
                        assert(left_node == before[l - 2] && right_node == before[l - 1]);
                        left_node.lemma_full_len(*right_node);
                        assert(tree@.last().full(left_node.inner_depth() + 1));
                        assert(stack_settling(tree@));
                    }
                }
            } else {
                proof {
                    if halved(all) && stack_settling(tree@) {
                        assert(stack_strict(tree@));
                    }
                }
                break ;
            }
        }
    }
    assert(all.take(all.len() as int) =~= all);
    let ghost stacked = tree@;
    match tree.pop() {
        Some(mut right_node) => {
            proof {
                assert(tree@ =~= stacked.drop_last());
                assert(stack_models(tree@).push(right_node.model()) =~= stack_models(stacked));
                if halved(all) {
                    if stack_strict(stacked) {
                        right_node.lemma_full(right_node.inner_depth());
                        assert(forall|i: int| 0 <= i < tree@.len() ==> tree@[i] == stacked[i]);
                        assert(stack_strict(tree@));
                    }
                }
            }
            while tree.len() > 0
                invariant
                    joined(all).len() <= usize::MAX,
                    stack_wf(tree@),
                    right_node.wf(),
                    right_node.fits_below(0),
                    right_node.unranked(),
                    stack_blocks(tree@) + right_node.blocks() == all,
                    folded(stack_models(tree@).push(right_node.model())) == merged(all),
                    halved(all) ==> {
                        &&& stack_strict(tree@)
                        &&& right_node.balanced()
                        &&& tree@.len() > 0 ==> right_node.inner_depth()
                            <= tree@.last().inner_depth()
                    },
                decreases tree@.len(),
            {
                let ghost before = tree@;
                let ghost folded_so_far = *right_node;
                let left_node = tree.pop().unwrap();
                proof {
                    assert(before.drop_last() =~= tree@);
                    left_node.lemma_model_root();
                    right_node.lemma_model_root();
                    left_node.lemma_len();
                    right_node.lemma_len();
                    left_node.lemma_blocks();
                    right_node.lemma_blocks();
                    lemma_joined_concat(stack_blocks(tree@), left_node.blocks());
                    lemma_joined_concat(
                        stack_blocks(tree@) + left_node.blocks(),
                        right_node.blocks(),
                    );
                }
                let size = left_node.len() + right_node.len();
                right_node = Box::new(Node::Inner(0, size, left_node, right_node));
                proof {
                    let unfolded = stack_models(before).push(folded_so_far.model());
                    assert(right_node.model() == paired(left_node.model(), folded_so_far.model()));
                    assert(unfolded.drop_last().drop_last().push(
                        paired(unfolded[unfolded.len() - 2], unfolded[unfolded.len() - 1]),
                    ) =~= stack_models(tree@).push(right_node.model()));
                    assert(stack_blocks(tree@) + right_node.blocks() =~= all);
                    if halved(all) {
                        assert(forall|i: int| 0 <= i < tree@.len() ==> tree@[i] == before[i]);
                        left_node.lemma_full(left_node.inner_depth());
                        assert(right_node.inner_depth() == left_node.inner_depth() + 1);
                        assert(right_node.blocks().len() >= left_node.blocks().len());
                    }
                }
            }
            let root = *right_node;
            proof {
                assert(stack_models(tree@).push(root.model()) =~= seq![root.model()]);
                assert(stack_blocks(tree@) =~= Seq::<Seq<C>>::empty());
                assert(root.blocks() =~= all);
                root.lemma_blocks();
            }
            Some(root)
        },
        None => {
            assert(stack_blocks(tree@) =~= Seq::<Seq<C>>::empty());
            None
        },
    }
}

/// Draws `count` priorities at random.
pub fn random_priorities(count: usize) -> (priorities: Vec<Priority>)
    ensures
        priorities@.len() == count,
{
    let mut priorities: Vec<Priority> = Vec::new();
    while priorities.len() < count
        invariant
            priorities@.len() <= count,
        decreases count - priorities@.len(),
    {
        priorities.push(random_priority());
    }
    priorities
}

/// Builds the tree of `items` in linear time. The elements go, in order, into
/// blocks of half the block size, which `merge_blocks` makes the leaves of a
/// balanced tree. Its inner nodes, one less than there are blocks, then
/// receive as many random priorities, sorted, in breadth-first order: the
/// largest goes to the root. Without elements the tree is an empty leaf.
pub fn build_tree<C>(items: Vec<C>) -> (root: Node<C>)
    ensures
        root.wf(),
        root@ == items@,
        root.balanced(),
        root.ranked_breadth_first(),
        items@.len() == 0 ==> root is Leaf,
        items@.len() > 0 ==> root.model().without_priorities() == merged(
            chunked(items@, (BLOCK_SIZE / 2) as nat),
        ),
        items@.len() > 0 ==> root.blocks() == chunked(items@, (BLOCK_SIZE / 2) as nat),
{
    proof {
        lemma_chunked(items@, (BLOCK_SIZE / 2) as nat);
        assert(items@.len() == items.len());
    }
    let blocks = chunks(items, BLOCK_SIZE / 2);
    let leaves = blocks.len();
    assert forall|i: int| 0 <= i < blocks@.len() implies 0 < (#[trigger] blocks@[i])@.len()
        <= BLOCK_SIZE by {
        assert(block_views(blocks@)[i] == blocks@[i]@);
    }
    match merge_blocks(blocks) {
        Some(mut root) => {
            let ghost shape = root;
            let mut priorities = random_priorities(leaves - 1);
            sort_unstable(&mut priorities);
            proof {
                root.lemma_blocks();
                root.lemma_relabeled_breadth_first(priorities@);
                root.relabeled_breadth_first(priorities@).lemma_same_shape_blocks(shape);
                root.relabeled_breadth_first(priorities@).lemma_same_shape(shape);
                root.relabeled_breadth_first(priorities@).lemma_same_shape_model(shape);
                shape.lemma_unranked_model();
            }
            for_each_node_breadth_first(&mut root, &mut priorities);
            root
        },
        None => {
            let root = Node::Leaf(Vec::new());
            proof {
                assert(seq![root].drop_first() =~= Seq::<Node<C>>::empty());
                assert(walked(seq![root], Seq::empty()) =~= seq![root]) by {
                    reveal_with_fuel(walked, 2);
                }
                assert(root == root.relabeled_breadth_first(Seq::empty()));
            }
            root
        },
    }
}

} // verus!
