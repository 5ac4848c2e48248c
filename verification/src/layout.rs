//! The tree layout engine: computes the visible block list for a viewport of
//! a given height from the cursor, the fold set and the scroll offset, and
//! applies cursor corrections. Widget sizes are carried by the store's
//! nodes; the engine's own output is the block list with exact line offsets.

use vstd::prelude::*;

use crate::blocks::{
    contains_block, find_index, total_height, Block, BlockId, BlockPos, Root, TreeBlocks,
    HEIGHT_MAX, LINE_LIMIT, TOTAL_LIMIT,
};
use crate::store::{
    in_node, in_nodes, node_count, node_wf, nodes_count, path_in_node, MsgNode, MsgStore,
    LAST_POSSIBLE_ID, NODE_MAX,
};

verus! {

/// Most lines one node may add to a layout: its own widget and possibly the
/// editor behind it.
pub const NODE_WEIGHT: i64 = 0x20000;

/// Most lines one expansion pass may add to a block list.
pub const EXPAND_BUDGET: i64 = 0x20000 * 0x100_0002;

/// Widest scroll delta and anchor line the engine accepts.
pub const ANCHOR_LIMIT: i64 = 0x40_0000_0000_0000 + 0x10000;

/// Largest cursor row count, as for every widget.
pub const SCROLLOFF: i64 = 2;

/// Viewports shorter than this get no scrolloff margin.
pub const MIN_CONTENT_HEIGHT: i64 = 10;

/// The layout engine's focus: locked below all trees, pinned to a message,
/// or an editor or pseudo-message under an optional parent.
#[derive(Clone, Copy, PartialEq, Eq, Structural, Debug)]
pub enum Cursor {
    Bottom,
    Msg(u64),
    Editor { parent: Option<u64> },
    Pseudo { parent: Option<u64> },
}

/// A pending one-shot correction applied during the next pass.
#[derive(Clone, Copy, PartialEq, Eq, Structural, Debug)]
pub enum Correction {
    MakeCursorVisible,
    MoveCursorToVisibleArea,
    CenterCursor,
}

impl Cursor {
    /// Whether the cursor is pinned to this message.
    pub open spec fn spec_refers_to(self, id: u64) -> bool {
        self == Cursor::Msg(id)
    }

    /// Whether the cursor sits immediately after this message's subtree.
    pub open spec fn spec_refers_to_last_child_of(self, id: u64) -> bool {
        match self {
            Cursor::Editor { parent: Some(p) } => p == id,
            Cursor::Pseudo { parent: Some(p) } => p == id,
            _ => false,
        }
    }

    pub fn refers_to(&self, id: u64) -> (r: bool)
        ensures
            r == self.spec_refers_to(id),
    {
        match self {
            Cursor::Msg(m) => *m == id,
            _ => false,
        }
    }

    pub fn refers_to_last_child_of(&self, id: u64) -> (r: bool)
        ensures
            r == self.spec_refers_to_last_child_of(id),
    {
        match self {
            Cursor::Editor { parent: Some(p) } => *p == id,
            Cursor::Pseudo { parent: Some(p) } => *p == id,
            _ => false,
        }
    }
}

impl BlockId {
    /// The block a cursor occupies: its message's block, or the dedicated
    /// cursor block for every other kind.
    pub open spec fn spec_from_cursor(c: Cursor) -> BlockId {
        match c {
            Cursor::Msg(id) => BlockId::Msg(id),
            _ => BlockId::Cursor,
        }
    }

    pub fn from_cursor(c: &Cursor) -> (r: BlockId)
        ensures
            r == BlockId::spec_from_cursor(*c),
    {
        match c {
            Cursor::Msg(id) => BlockId::Msg(*id),
            _ => BlockId::Cursor,
        }
    }
}

/// The scrolloff margin for a viewport of this height: up to two lines, and
/// none at all for very short viewports.
pub open spec fn spec_scrolloff(height: int) -> int {
    let grown = if height - MIN_CONTENT_HEIGHT > 0 {
        (height - MIN_CONTENT_HEIGHT) / 2
    } else {
        0int
    };
    if grown < SCROLLOFF {
        grown
    } else {
        SCROLLOFF as int
    }
}

/// The scrolloff margin for a viewport of this height.
pub fn scrolloff(height: i64) -> (r: i64)
    requires
        0 <= height <= HEIGHT_MAX,
    ensures
        r == spec_scrolloff(height as int),
        0 <= r <= 2,
{
    let grown = if height - MIN_CONTENT_HEIGHT > 0 {
        (height - MIN_CONTENT_HEIGHT) / 2
    } else {
        0
    };
    if grown < SCROLLOFF {
        grown
    } else {
        SCROLLOFF
    }
}

/// The layout engine's state between passes.
#[derive(Debug)]
pub struct InnerTreeViewState {
    pub store: MsgStore,
    pub cursor: Cursor,
    pub last_cursor: Cursor,
    pub last_cursor_line: i64,
    pub last_visible_msgs: Vec<u64>,
    pub correction: Option<Correction>,
    pub scroll: i64,
    pub folded: Vec<u64>,
    pub editor_height: i64,
    pub editor_row: i64,
}

impl InnerTreeViewState {
    /// The store is well formed, the editor's size is a valid widget size,
    /// and the remembered anchor line is in range.
    pub open spec fn wf(self) -> bool {
        &&& self.store.wf()
        &&& 1 <= self.editor_height <= HEIGHT_MAX
        &&& 0 <= self.editor_row < self.editor_height
        &&& -ANCHOR_LIMIT <= self.last_cursor_line <= ANCHOR_LIMIT
        &&& -ANCHOR_LIMIT <= self.scroll <= ANCHOR_LIMIT
    }

    /// Whether this message's replies are collapsed.
    pub open spec fn spec_folded(self, id: u64) -> bool {
        exists|k: int| 0 <= k < self.folded@.len() && self.folded@[k] == id
    }

    /// Whether this message's replies are collapsed.
    pub fn is_folded(&self, id: u64) -> (r: bool)
        ensures
            r == self.spec_folded(id),
    {
        let mut k: usize = 0;
        while k < self.folded.len()
            invariant
                k <= self.folded@.len(),
                forall|j: int| 0 <= j < k ==> self.folded@[j] != id,
            decreases self.folded@.len() - k,
        {
            if self.folded[k] == id {
                return true;
            }
            k = k + 1;
        }
        false
    }

    /// A message's rendered block: the widget rows, all focusable.
    pub open spec fn spec_msg_block(self, n: MsgNode) -> Block {
        Block {
            id: BlockId::Msg(n.id),
            height: n.height as i64,
            focus_start: 0,
            focus_end: n.height as i64,
        }
    }

    /// The editor's block: the editor widget with the cursor's row focused.
    pub open spec fn spec_editor_block(self) -> Block {
        Block {
            id: BlockId::Cursor,
            height: self.editor_height,
            focus_start: self.editor_row,
            focus_end: (self.editor_row + 1) as i64,
        }
    }

    /// A pseudo-message's block: the echoed message, all rows focusable.
    pub open spec fn spec_pseudo_block(self) -> Block {
        Block {
            id: BlockId::Cursor,
            height: self.editor_height,
            focus_start: 0,
            focus_end: self.editor_height,
        }
    }

    /// The blocks one subtree emits, in order: the ghost of the previous
    /// cursor position, the message itself, the children unless folded, the
    /// trailing ghost, and the trailing editor or pseudo-message.
    pub open spec fn subtree_blocks(self, n: MsgNode) -> Seq<Block>
        decreases n,
    {
        let lead = if self.last_cursor.spec_refers_to(n.id) {
            seq![ghost_block()]
        } else {
            Seq::<Block>::empty()
        };
        let msg = seq![self.spec_msg_block(n)];
        let kids = if self.spec_folded(n.id) {
            Seq::<Block>::empty()
        } else {
            self.children_blocks(n.children@)
        };
        let ghost_trail = if self.last_cursor.spec_refers_to_last_child_of(n.id) {
            seq![ghost_block()]
        } else {
            Seq::<Block>::empty()
        };
        let cursor_trail = if self.cursor.spec_refers_to_last_child_of(n.id) {
            match self.cursor {
                Cursor::Editor { .. } => seq![self.spec_editor_block()],
                Cursor::Pseudo { .. } => seq![self.spec_pseudo_block()],
                _ => Seq::<Block>::empty(),
            }
        } else {
            Seq::<Block>::empty()
        };
        lead + msg + kids + ghost_trail + cursor_trail
    }

    /// The blocks a forest of subtrees emits, in order.
    pub open spec fn children_blocks(self, s: Seq<MsgNode>) -> Seq<Block>
        decreases s,
    {
        if s.len() == 0 {
            Seq::<Block>::empty()
        } else {
            self.subtree_blocks(s[0]) + self.children_blocks(s.drop_first())
        }
    }

    /// The blocks of the band below all trees: the ghost of a previous
    /// bottom editor position, then the cursor's own block when the cursor
    /// sits below all trees.
    pub open spec fn bottom_blocks(self) -> Seq<Block> {
        let lead = match self.last_cursor {
            Cursor::Editor { parent: None } => seq![ghost_block()],
            Cursor::Pseudo { parent: None } => seq![ghost_block()],
            _ => Seq::<Block>::empty(),
        };
        let cur = match self.cursor {
            Cursor::Bottom => seq![bottom_cursor_block()],
            Cursor::Editor { parent: None } => seq![self.spec_editor_block()],
            Cursor::Pseudo { parent: None } => seq![self.spec_pseudo_block()],
            _ => Seq::<Block>::empty(),
        };
        lead + cur
    }
}

/// The zero-height ghost marking the previous cursor position.
pub open spec fn ghost_block() -> Block {
    Block { id: BlockId::LastCursor, height: 0, focus_start: 0, focus_end: 0 }
}

/// The zero-height block of a cursor locked to the viewport bottom.
pub open spec fn bottom_cursor_block() -> Block {
    Block { id: BlockId::Cursor, height: 0, focus_start: 0, focus_end: 0 }
}

/// Emitted forests split over concatenation.
pub proof fn lemma_children_blocks_concat(state: InnerTreeViewState, a: Seq<MsgNode>, b: Seq<
    MsgNode,
>)
    ensures
        state.children_blocks(a + b) == state.children_blocks(a) + state.children_blocks(b),
    decreases a.len(),
{
    if a.len() == 0 {
        assert(a + b =~= b);
        assert(state.children_blocks(a) =~= Seq::<Block>::empty());
        assert(state.children_blocks(a) + state.children_blocks(b) =~= state.children_blocks(b));
    } else {
        assert((a + b).drop_first() =~= a.drop_first() + b);
        assert((a + b)[0] == a[0]);
        lemma_children_blocks_concat(state, a.drop_first(), b);
        assert(state.subtree_blocks(a[0]) + (state.children_blocks(a.drop_first())
            + state.children_blocks(b)) =~= (state.subtree_blocks(a[0]) + state.children_blocks(
            a.drop_first(),
        )) + state.children_blocks(b));
    }
}

/// One step of the emitted forest: the next subtree's blocks join on the
/// right.
pub proof fn lemma_children_blocks_take(state: InnerTreeViewState, s: Seq<MsgNode>, i: int)
    requires
        0 <= i < s.len(),
    ensures
        state.children_blocks(s.take(i + 1)) == state.children_blocks(s.take(i))
            + state.subtree_blocks(s[i]),
{
    assert(s.take(i + 1) =~= s.take(i) + seq![s[i]]);
    lemma_children_blocks_concat(state, s.take(i), seq![s[i]]);
    assert(seq![s[i]].drop_first() =~= Seq::<MsgNode>::empty());
    assert(seq![s[i]][0] == s[i]);
    assert(state.children_blocks(Seq::<MsgNode>::empty()) =~= Seq::<Block>::empty());
    assert(state.children_blocks(seq![s[i]]) == state.subtree_blocks(seq![s[i]][0])
        + state.children_blocks(seq![s[i]].drop_first()));
    assert(state.subtree_blocks(s[i]) + Seq::<Block>::empty() =~= state.subtree_blocks(s[i]));
    assert(state.children_blocks(seq![s[i]]) =~= state.subtree_blocks(s[i]));
}

/// A subtree's emitted blocks are all well formed and their height is
/// bounded by the subtree's node count.
pub proof fn lemma_subtree_weight(state: InnerTreeViewState, n: MsgNode)
    requires
        1 <= state.editor_height <= HEIGHT_MAX,
        0 <= state.editor_row < state.editor_height,
        node_wf(n),
    ensures
        0 <= total_height(state.subtree_blocks(n)) <= NODE_WEIGHT * node_count(n),
        forall|k: int|
            0 <= k < state.subtree_blocks(n).len() ==> (#[trigger] state.subtree_blocks(n)[k]).wf(),
    decreases n,
{
    let lead = if state.last_cursor.spec_refers_to(n.id) {
        seq![ghost_block()]
    } else {
        Seq::<Block>::empty()
    };
    let msg = seq![state.spec_msg_block(n)];
    let kids = if state.spec_folded(n.id) {
        Seq::<Block>::empty()
    } else {
        state.children_blocks(n.children@)
    };
    let ghost_trail = if state.last_cursor.spec_refers_to_last_child_of(n.id) {
        seq![ghost_block()]
    } else {
        Seq::<Block>::empty()
    };
    let cursor_trail = if state.cursor.spec_refers_to_last_child_of(n.id) {
        match state.cursor {
            Cursor::Editor { .. } => seq![state.spec_editor_block()],
            Cursor::Pseudo { .. } => seq![state.spec_pseudo_block()],
            _ => Seq::<Block>::empty(),
        }
    } else {
        Seq::<Block>::empty()
    };
    lemma_children_weight(state, n.children@);
    let t1 = ghost_trail + cursor_trail;
    let t2 = kids + t1;
    let t3 = msg + t2;
    let t4 = lead + t3;
    crate::blocks::lemma_total_height_concat(ghost_trail, cursor_trail);
    crate::blocks::lemma_total_height_concat(kids, t1);
    crate::blocks::lemma_total_height_concat(msg, t2);
    crate::blocks::lemma_total_height_concat(lead, t3);
    assert(state.subtree_blocks(n) =~= t4);
    assert(total_height(state.subtree_blocks(n)) == total_height(lead) + total_height(msg)
        + total_height(kids) + total_height(ghost_trail) + total_height(cursor_trail));
    assert(total_height(lead) <= 0) by {
        if state.last_cursor.spec_refers_to(n.id) {
            assert(seq![ghost_block()].drop_first() =~= Seq::<Block>::empty());
        }
    }
    assert(total_height(lead) >= 0) by {
        if state.last_cursor.spec_refers_to(n.id) {
            assert(seq![ghost_block()].drop_first() =~= Seq::<Block>::empty());
        }
    }
    assert(total_height(msg) == n.height as int) by {
        assert(msg.drop_first() =~= Seq::<Block>::empty());
    }
    assert(0 <= total_height(ghost_trail) <= 0) by {
        if state.last_cursor.spec_refers_to_last_child_of(n.id) {
            assert(seq![ghost_block()].drop_first() =~= Seq::<Block>::empty());
        }
    }
    assert(0 <= total_height(cursor_trail) <= state.editor_height) by {
        if state.cursor.spec_refers_to_last_child_of(n.id) {
            assert(seq![state.spec_editor_block()].drop_first() =~= Seq::<Block>::empty());
            assert(seq![state.spec_pseudo_block()].drop_first() =~= Seq::<Block>::empty());
        }
    }
    assert(NODE_WEIGHT * node_count(n) == NODE_WEIGHT + NODE_WEIGHT * nodes_count(n.children@))
        by (nonlinear_arith)
        requires
            node_count(n) == 1 + nodes_count(n.children@),
    ;
    assert forall|k: int| 0 <= k < state.subtree_blocks(n).len() implies (
    #[trigger] state.subtree_blocks(n)[k]).wf() by {
        let s = state.subtree_blocks(n);
        let a = lead;
        let b = msg;
        let c = kids;
        let d = ghost_trail;
        let e = cursor_trail;
        assert(s =~= a + (b + (c + (d + e))));
        if k < a.len() {
            assert(s[k] == a[0]);
        } else if k < a.len() + b.len() {
            assert(s[k] == b[k - a.len()]);
        } else if k < a.len() + b.len() + c.len() {
            assert(s[k] == c[k - a.len() - b.len()]);
        } else if k < a.len() + b.len() + c.len() + d.len() {
            assert(s[k] == d[k - a.len() - b.len() - c.len()]);
        } else {
            assert(s[k] == e[k - a.len() - b.len() - c.len() - d.len()]);
        }
    }
}

/// A forest's emitted blocks are all well formed and their height is bounded
/// by the forest's node count.
pub proof fn lemma_children_weight(state: InnerTreeViewState, s: Seq<MsgNode>)
    requires
        1 <= state.editor_height <= HEIGHT_MAX,
        0 <= state.editor_row < state.editor_height,
        forall|i: int| 0 <= i < s.len() ==> node_wf(#[trigger] s[i]),
    ensures
        0 <= total_height(state.children_blocks(s)) <= NODE_WEIGHT * nodes_count(s),
        forall|k: int|
            0 <= k < state.children_blocks(s).len() ==> (
            #[trigger] state.children_blocks(s)[k]).wf(),
    decreases s,
{
    if s.len() == 0 {
    } else {
        let rest = s.drop_first();
        assert(forall|i: int| 0 <= i < rest.len() ==> node_wf(#[trigger] rest[i]));
        lemma_subtree_weight(state, s[0]);
        lemma_children_weight(state, rest);
        crate::blocks::lemma_total_height_concat(
            state.subtree_blocks(s[0]),
            state.children_blocks(rest),
        );
        assert(NODE_WEIGHT * nodes_count(s) == NODE_WEIGHT * node_count(s[0]) + NODE_WEIGHT
            * nodes_count(rest)) by (nonlinear_arith)
            requires
                nodes_count(s) == node_count(s[0]) + nodes_count(rest),
        ;
        assert forall|k: int| 0 <= k < state.children_blocks(s).len() implies (
        #[trigger] state.children_blocks(s)[k]).wf() by {
            let a = state.subtree_blocks(s[0]);
            let b = state.children_blocks(rest);
            if k < a.len() {
                assert(state.children_blocks(s)[k] == a[k]);
            } else {
                assert(state.children_blocks(s)[k] == b[k - a.len()]);
            }
        }
    }
}

/// A one-block sequence is as high as its block.
pub proof fn lemma_singleton_height(b: Block)
    ensures
        total_height(seq![b]) == b.height,
{
    assert(seq![b].drop_first() =~= Seq::<Block>::empty());
    assert(total_height(Seq::<Block>::empty()) == 0);
    assert(seq![b][0] == b);
}

/// Node counts add up over concatenation.
pub proof fn lemma_nodes_count_concat(a: Seq<MsgNode>, b: Seq<MsgNode>)
    ensures
        nodes_count(a + b) == nodes_count(a) + nodes_count(b),
    decreases a.len(),
{
    if a.len() == 0 {
        assert(a + b =~= b);
    } else {
        assert((a + b).drop_first() =~= a.drop_first() + b);
        assert((a + b)[0] == a[0]);
        lemma_nodes_count_concat(a.drop_first(), b);
    }
}

/// The node count of a prefix grows one subtree at a time and never exceeds
/// the whole.
pub proof fn lemma_nodes_count_take(s: Seq<MsgNode>, i: int)
    requires
        0 <= i < s.len(),
    ensures
        nodes_count(s.take(i + 1)) == nodes_count(s.take(i)) + node_count(s[i]),
        nodes_count(s.take(i + 1)) <= nodes_count(s),
{
    assert(s.take(i + 1) =~= s.take(i) + seq![s[i]]);
    lemma_nodes_count_concat(s.take(i), seq![s[i]]);
    assert(seq![s[i]].drop_first() =~= Seq::<MsgNode>::empty());
    assert(seq![s[i]][0] == s[i]);
    assert(nodes_count(Seq::<MsgNode>::empty()) == 0);
    assert(nodes_count(seq![s[i]]) == node_count(s[i]));
    assert(s =~= s.take(i + 1) + s.skip(i + 1));
    lemma_nodes_count_concat(s.take(i + 1), s.skip(i + 1));
}

impl InnerTreeViewState {
    /// The editor widget's size is valid.
    pub open spec fn editor_wf(self) -> bool {
        &&& 1 <= self.editor_height <= HEIGHT_MAX
        &&& 0 <= self.editor_row < self.editor_height
    }

    /// The editor's rendered block, with the cursor's row focused.
    pub fn editor_block(&self) -> (r: Block)
        requires
            self.editor_wf(),
        ensures
            r == self.spec_editor_block(),
            r.wf(),
    {
        Block {
            id: BlockId::Cursor,
            height: self.editor_height,
            focus_start: self.editor_row,
            focus_end: self.editor_row + 1,
        }
    }

    /// A pseudo-message's rendered block.
    pub fn pseudo_block(&self) -> (r: Block)
        requires
            self.editor_wf(),
        ensures
            r == self.spec_pseudo_block(),
            r.wf(),
    {
        Block {
            id: BlockId::Cursor,
            height: self.editor_height,
            focus_start: 0,
            focus_end: self.editor_height,
        }
    }

    /// Lays the subtree out below everything already in the list: ghost
    /// markers for the previous cursor, the message widget, the unfolded
    /// children in order, and a trailing editor or pseudo-message.
    pub fn layout_subtree(&self, n: &MsgNode, blocks: &mut TreeBlocks)
        requires
            self.editor_wf(),
            node_wf(*n),
            old(blocks).wf(),
            old(blocks).total + NODE_WEIGHT * node_count(*n) <= TOTAL_LIMIT,
        ensures
            final(blocks).wf(),
            final(blocks).blocks@ == old(blocks).blocks@ + self.subtree_blocks(*n),
            final(blocks).top_line == old(blocks).top_line,
            final(blocks).top_root == old(blocks).top_root,
            final(blocks).bottom_root == old(blocks).bottom_root,
            final(blocks).total == old(blocks).total + total_height(self.subtree_blocks(*n)),
        decreases *n,
    {
        let ghost t0 = *old(blocks);
        let ghost lead = if self.last_cursor.spec_refers_to(n.id) {
            seq![ghost_block()]
        } else {
            Seq::<Block>::empty()
        };
        let ghost msg = seq![self.spec_msg_block(*n)];
        proof {
            lemma_subtree_weight(*self, *n);
        }
        if self.last_cursor.refers_to(n.id) {
            blocks.push_back(Block { id: BlockId::LastCursor, height: 0, focus_start: 0, focus_end: 0 });
            proof {
                assert(blocks.blocks@ =~= t0.blocks@ + lead);
                lemma_singleton_height(ghost_block());
            }
        } else {
            proof {
                assert(blocks.blocks@ =~= t0.blocks@ + lead);
            }
        }
        proof {
            assert(total_height(lead) == 0) by {
                if self.last_cursor.spec_refers_to(n.id) {
                    lemma_singleton_height(ghost_block());
                }
            }
            assert(blocks.total == t0.total);
            lemma_singleton_height(self.spec_msg_block(*n));
            assert(NODE_WEIGHT * node_count(*n) >= NODE_WEIGHT) by (nonlinear_arith)
                requires
                    node_count(*n) >= 1,
            ;
        }
        let folded = self.is_folded(n.id);
        blocks.push_back(
            Block {
                id: BlockId::Msg(n.id),
                height: n.height as i64,
                focus_start: 0,
                focus_end: n.height as i64,
            },
        );
        proof {
            assert(blocks.blocks@ =~= t0.blocks@ + lead + msg);
        }
        let ghost kids = if self.spec_folded(n.id) {
            Seq::<Block>::empty()
        } else {
            self.children_blocks(n.children@)
        };
        if !folded {
            let mut i: usize = 0;
            proof {
                assert(n.children@.take(0) =~= Seq::<MsgNode>::empty());
            }
            while i < n.children.len()
                invariant
                    i <= n.children@.len(),
                    self.editor_wf(),
                    node_wf(*n),
                    blocks.wf(),
                    blocks.top_line == t0.top_line,
                    blocks.top_root == t0.top_root,
                    blocks.bottom_root == t0.bottom_root,
                    blocks.blocks@ == t0.blocks@ + lead + msg + self.children_blocks(
                        n.children@.take(i as int),
                    ),
                    blocks.total == t0.total + total_height(msg) + total_height(
                        self.children_blocks(n.children@.take(i as int)),
                    ),
                    total_height(msg) == n.height as int,
                    t0.total + NODE_WEIGHT * node_count(*n) <= TOTAL_LIMIT,
                decreases n.children@.len() - i,
            {
                proof {
                    assert(node_wf(n.children@[i as int]));
                    assert(forall|k: int|
                        0 <= k < n.children@.take(i as int).len() ==> node_wf(
                            #[trigger] n.children@.take(i as int)[k],
                        ));
                    lemma_children_weight(*self, n.children@.take(i as int));
                    lemma_nodes_count_take(n.children@, i as int);
                    assert(nodes_count(n.children@.take(i as int)) + node_count(
                        n.children@[i as int],
                    ) <= nodes_count(n.children@));
                    assert(NODE_WEIGHT * nodes_count(n.children@.take(i as int)) + NODE_WEIGHT
                        * node_count(n.children@[i as int]) + NODE_WEIGHT <= NODE_WEIGHT
                        * node_count(*n)) by (nonlinear_arith)
                        requires
                            nodes_count(n.children@.take(i as int)) + node_count(
                                n.children@[i as int],
                            ) <= nodes_count(n.children@),
                            node_count(*n) == 1 + nodes_count(n.children@),
                    ;
                }
                self.layout_subtree(&n.children[i], blocks);
                proof {
                    lemma_children_blocks_take(*self, n.children@, i as int);
                    assert(blocks.blocks@ =~= t0.blocks@ + lead + msg + self.children_blocks(
                        n.children@.take(i as int + 1),
                    ));
                    crate::blocks::lemma_total_height_concat(
                        self.children_blocks(n.children@.take(i as int)),
                        self.subtree_blocks(n.children@[i as int]),
                    );
                }
                i = i + 1;
            }
            proof {
                assert(n.children@.take(n.children@.len() as int) =~= n.children@);
            }
        }
        proof {
            assert(blocks.blocks@ == t0.blocks@ + lead + msg + kids);
            assert(blocks.total == t0.total + total_height(msg) + total_height(kids)) by {
                if self.spec_folded(n.id) {
                }
            }
            assert(forall|k: int| 0 <= k < n.children@.len() ==> node_wf(#[trigger] n.children@[k]));
            lemma_children_weight(*self, n.children@);
            assert(total_height(kids) >= 0);
            let ghost_trail = if self.last_cursor.spec_refers_to_last_child_of(n.id) {
                seq![ghost_block()]
            } else {
                Seq::<Block>::empty()
            };
            let cursor_trail = if self.cursor.spec_refers_to_last_child_of(n.id) {
                match self.cursor {
                    Cursor::Editor { .. } => seq![self.spec_editor_block()],
                    Cursor::Pseudo { .. } => seq![self.spec_pseudo_block()],
                    _ => Seq::<Block>::empty(),
                }
            } else {
                Seq::<Block>::empty()
            };
            let t1 = ghost_trail + cursor_trail;
            let t2 = kids + t1;
            let t3 = msg + t2;
            let t4 = lead + t3;
            crate::blocks::lemma_total_height_concat(ghost_trail, cursor_trail);
            crate::blocks::lemma_total_height_concat(kids, t1);
            crate::blocks::lemma_total_height_concat(msg, t2);
            crate::blocks::lemma_total_height_concat(lead, t3);
            assert(self.subtree_blocks(*n) =~= t4);
            assert(total_height(ghost_trail) == 0) by {
                if self.last_cursor.spec_refers_to_last_child_of(n.id) {
                    lemma_singleton_height(ghost_block());
                }
            }
            assert(total_height(cursor_trail) >= 0 && total_height(cursor_trail)
                <= self.editor_height) by {
                if self.cursor.spec_refers_to_last_child_of(n.id) {
                    lemma_singleton_height(self.spec_editor_block());
                    lemma_singleton_height(self.spec_pseudo_block());
                }
            }
        }
        if self.last_cursor.refers_to_last_child_of(n.id) {
            blocks.push_back(Block { id: BlockId::LastCursor, height: 0, focus_start: 0, focus_end: 0 });
        }
        if self.cursor.refers_to_last_child_of(n.id) {
            match self.cursor {
                Cursor::Editor { .. } => {
                    let b = self.editor_block();
                    blocks.push_back(b);
                },
                Cursor::Pseudo { .. } => {
                    let b = self.pseudo_block();
                    blocks.push_back(b);
                },
                _ => {},
            }
        }
        proof {
            let ghost_trail = if self.last_cursor.spec_refers_to_last_child_of(n.id) {
                seq![ghost_block()]
            } else {
                Seq::<Block>::empty()
            };
            let cursor_trail = if self.cursor.spec_refers_to_last_child_of(n.id) {
                match self.cursor {
                    Cursor::Editor { .. } => seq![self.spec_editor_block()],
                    Cursor::Pseudo { .. } => seq![self.spec_pseudo_block()],
                    _ => Seq::<Block>::empty(),
                }
            } else {
                Seq::<Block>::empty()
            };
            let t1 = ghost_trail + cursor_trail;
            let t2 = kids + t1;
            let t3 = msg + t2;
            let t4 = lead + t3;
            crate::blocks::lemma_total_height_concat(ghost_trail, cursor_trail);
            crate::blocks::lemma_total_height_concat(kids, t1);
            crate::blocks::lemma_total_height_concat(msg, t2);
            crate::blocks::lemma_total_height_concat(lead, t3);
            assert(self.subtree_blocks(*n) =~= t4);
            lemma_singleton_height(ghost_block());
            lemma_singleton_height(self.spec_editor_block());
            lemma_singleton_height(self.spec_pseudo_block());
            assert(total_height(Seq::<Block>::empty()) == 0);
            assert(final(blocks).blocks@ =~= t0.blocks@ + self.subtree_blocks(*n));
            assert(final(blocks).total == t0.total + total_height(self.subtree_blocks(*n)));
        }
    }

    /// Lays one whole tree out as a fresh block list rooted at the tree.
    pub fn layout_tree(&self, tree: &MsgNode) -> (r: TreeBlocks)
        requires
            self.editor_wf(),
            node_wf(*tree),
            node_count(*tree) <= NODE_MAX,
        ensures
            r.wf(),
            r.blocks@ == self.subtree_blocks(*tree),
            r.top_line == 0,
            r.top_root == Root::Tree(tree.id),
            r.bottom_root == Root::Tree(tree.id),
            r.total == total_height(self.subtree_blocks(*tree)),
            r.total <= NODE_WEIGHT * node_count(*tree),
    {
        let mut blocks = TreeBlocks::new(Root::Tree(tree.id), Root::Tree(tree.id));
        proof {
            lemma_subtree_weight(*self, *tree);
            assert(NODE_WEIGHT * node_count(*tree) <= NODE_WEIGHT * NODE_MAX) by (nonlinear_arith)
                requires
                    node_count(*tree) <= NODE_MAX,
            ;
        }
        self.layout_subtree(tree, &mut blocks);
        proof {
            assert(blocks.blocks@ =~= self.subtree_blocks(*tree));
        }
        blocks
    }

    /// Lays out the band below all trees: the previous bottom cursor's ghost
    /// and, when the cursor itself sits below all trees, its block.
    pub fn layout_bottom(&self) -> (r: TreeBlocks)
        requires
            self.editor_wf(),
        ensures
            r.wf(),
            r.blocks@ == self.bottom_blocks(),
            r.top_line == 0,
            r.top_root == Root::Bottom,
            r.bottom_root == Root::Bottom,
            r.total == total_height(self.bottom_blocks()),
            0 <= r.total <= NODE_WEIGHT,
    {
        let mut blocks = TreeBlocks::new(Root::Bottom, Root::Bottom);
        let ghost lead = match self.last_cursor {
            Cursor::Editor { parent: None } => seq![ghost_block()],
            Cursor::Pseudo { parent: None } => seq![ghost_block()],
            _ => Seq::<Block>::empty(),
        };
        match self.last_cursor {
            Cursor::Editor { parent: None } | Cursor::Pseudo { parent: None } => {
                blocks.push_back(
                    Block { id: BlockId::LastCursor, height: 0, focus_start: 0, focus_end: 0 },
                );
            },
            _ => {},
        }
        proof {
            assert(blocks.blocks@ =~= lead);
            assert(total_height(lead) == 0) by {
                lemma_singleton_height(ghost_block());
            }
        }
        match self.cursor {
            Cursor::Bottom => {
                blocks.push_back(
                    Block { id: BlockId::Cursor, height: 0, focus_start: 0, focus_end: 0 },
                );
            },
            Cursor::Editor { parent: None } => {
                let b = self.editor_block();
                blocks.push_back(b);
            },
            Cursor::Pseudo { parent: None } => {
                let b = self.pseudo_block();
                blocks.push_back(b);
            },
            _ => {},
        }
        proof {
            assert(blocks.blocks@ =~= self.bottom_blocks());
            lemma_singleton_height(bottom_cursor_block());
            lemma_singleton_height(self.spec_editor_block());
            lemma_singleton_height(self.spec_pseudo_block());
            crate::blocks::lemma_total_height_concat(
                lead,
                self.bottom_blocks().skip(lead.len() as int),
            );
            assert(blocks.total == total_height(self.bottom_blocks()));
        }
        blocks
    }
}

/// Membership in a concatenation is membership in either part.
pub proof fn lemma_contains_block_concat(a: Seq<Block>, b: Seq<Block>, id: BlockId)
    ensures
        contains_block(a + b, id) <==> (contains_block(a, id) || contains_block(b, id)),
{
    if contains_block(a, id) {
        let k = choose|k: int| 0 <= k < a.len() && (#[trigger] a[k]).id == id;
        assert((a + b)[k] == a[k]);
    }
    if contains_block(b, id) {
        let k = choose|k: int| 0 <= k < b.len() && (#[trigger] b[k]).id == id;
        assert((a + b)[a.len() + k] == b[k]);
    }
    if contains_block(a + b, id) {
        let k = choose|k: int| 0 <= k < (a + b).len() && (#[trigger] (a + b)[k]).id == id;
        if k < a.len() {
            assert(a[k] == (a + b)[k]);
        } else {
            assert(b[k - a.len()] == (a + b)[k]);
        }
    }
}

/// One tree of a forest never holds more messages than the whole forest.
pub proof fn lemma_forest_member_count(s: Seq<MsgNode>, i: int)
    requires
        0 <= i < s.len(),
    ensures
        node_count(s[i]) <= nodes_count(s),
{
    assert(s =~= s.take(i) + s.skip(i));
    lemma_nodes_count_concat(s.take(i), s.skip(i));
    assert(s.skip(i)[0] == s[i]);
    assert(nodes_count(s.skip(i)) == node_count(s[i]) + nodes_count(s.skip(i).drop_first()));
}

/// A prefix of a forest never holds more messages than the whole.
pub proof fn lemma_nodes_count_prefix(s: Seq<MsgNode>, i: int)
    requires
        0 <= i <= s.len(),
    ensures
        nodes_count(s.take(i)) <= nodes_count(s),
{
    assert(s =~= s.take(i) + s.skip(i));
    lemma_nodes_count_concat(s.take(i), s.skip(i));
}

/// Whether a block list's end root is a real root of the store.
pub open spec fn root_valid(store: MsgStore, r: Root) -> bool {
    match r {
        Root::Bottom => true,
        Root::Tree(id) => store.has_root(id),
    }
}

/// How many trees lie at or above this root; the measure expansion upward
/// walks down.
pub open spec fn root_measure(store: MsgStore, r: Root) -> int {
    match r {
        Root::Bottom => store.trees@.len() as int,
        Root::Tree(id) => store.root_index(id),
    }
}

/// Whether this root is the oldest content the store has.
pub open spec fn at_history_start(store: MsgStore, r: Root) -> bool {
    match r {
        Root::Bottom => store.trees@.len() == 0,
        Root::Tree(id) => store.trees@.len() > 0 && store.trees@[0].id == id,
    }
}

impl InnerTreeViewState {
    /// Lays out older and older trees above the list until line zero is
    /// covered or the history starts. Growth is by prepending whole tree
    /// layouts only: the old blocks survive as a suffix, and since the end
    /// line is unchanged they keep their lines.
    pub fn expand_to_top(&self, blocks: &mut TreeBlocks)
        requires
            self.wf(),
            old(blocks).wf(),
            root_valid(self.store, old(blocks).top_root),
            old(blocks).total + EXPAND_BUDGET <= TOTAL_LIMIT,
            msgs_in_store(self.store, old(blocks).blocks@),
        ensures
            final(blocks).wf(),
            root_valid(self.store, final(blocks).top_root),
            final(blocks).bottom_root == old(blocks).bottom_root,
            final(blocks).spec_end_line() == old(blocks).spec_end_line(),
            final(blocks).top_line <= old(blocks).top_line,
            final(blocks).top_line == old(blocks).top_line || final(blocks).top_line >= 1
                - EXPAND_BUDGET,
            final(blocks).top_line <= 0 || at_history_start(self.store, final(blocks).top_root),
            final(blocks).total <= old(blocks).total + EXPAND_BUDGET,
            exists|p: Seq<Block>| final(blocks).blocks@ == p + old(blocks).blocks@,
            msgs_in_store(self.store, final(blocks).blocks@),
            forall|id: BlockId|
                contains_block(old(blocks).blocks@, id) ==> contains_block(
                    final(blocks).blocks@,
                    id,
                ),
    {
        let ghost t0 = *old(blocks);
        let mut done = false;
        proof {
            let m0 = root_measure(self.store, blocks.top_root);
            match blocks.top_root {
                Root::Bottom => {},
                Root::Tree(tid) => {
                    let j = self.store.root_index(tid);
                    assert(0 <= j < self.store.trees@.len());
                },
            }
            lemma_nodes_count_prefix(self.store.trees@, m0);
            assert(NODE_WEIGHT * nodes_count(self.store.trees@.take(m0)) <= NODE_WEIGHT
                * nodes_count(self.store.trees@)) by (nonlinear_arith)
                requires
                    nodes_count(self.store.trees@.take(m0)) <= nodes_count(self.store.trees@),
            ;
            assert(NODE_WEIGHT * nodes_count(self.store.trees@) <= NODE_WEIGHT * NODE_MAX)
                by (nonlinear_arith)
                requires
                    nodes_count(self.store.trees@) <= NODE_MAX,
            ;
            assert(Seq::<Block>::empty() + blocks.blocks@ =~= blocks.blocks@);
        }
        while !done && blocks.top_line > 0
            invariant
                self.wf(),
                blocks.wf(),
                t0.total + EXPAND_BUDGET <= TOTAL_LIMIT,
                0 <= t0.total,
                root_valid(self.store, blocks.top_root),
                blocks.bottom_root == t0.bottom_root,
                blocks.spec_end_line() == t0.spec_end_line(),
                blocks.top_line <= t0.top_line,
                blocks.top_line == t0.top_line || blocks.top_line >= 1 - EXPAND_BUDGET,
                done ==> at_history_start(self.store, blocks.top_root),
                blocks.total + NODE_WEIGHT * nodes_count(
                    self.store.trees@.take(root_measure(self.store, blocks.top_root)),
                ) <= t0.total + EXPAND_BUDGET,
                exists|p: Seq<Block>| blocks.blocks@ == p + t0.blocks@,
                msgs_in_store(self.store, blocks.blocks@),
                forall|id: BlockId|
                    contains_block(t0.blocks@, id) ==> contains_block(blocks.blocks@, id),
            decreases root_measure(self.store, blocks.top_root), (if done {
                0int
            } else {
                1int
            }),
        {
            let ghost pre = *blocks;
            let top_root = blocks.top_root;
            let prev = match top_root {
                Root::Bottom => self.store.last_tree_id(),
                Root::Tree(tid) => {
                    proof {
                        let j = self.store.root_index(tid);
                        assert(0 <= j < self.store.trees@.len());
                    }
                    self.store.prev_tree_id(tid)
                },
            };
            match prev {
                None => {
                    done = true;
                    proof {
                        match top_root {
                            Root::Bottom => {
                                assert(self.store.trees@.len() == 0);
                            },
                            Root::Tree(tid) => {
                                assert(self.store.root_index(tid) == 0);
                                assert(self.store.trees@[0].id == tid);
                            },
                        }
                    }
                },
                Some(prev_id) => {
                    let ghost m = root_measure(self.store, pre.top_root);
                    proof {
                        assert(0 <= m - 1 < self.store.trees@.len());
                        assert(self.store.trees@[m - 1].id == prev_id);
                        assert(self.store.has_root(prev_id));
                        assert(node_wf(self.store.trees@[m - 1]));
                        lemma_forest_member_count(self.store.trees@, m - 1);
                        assert(node_count(self.store.trees@[m - 1]) <= NODE_MAX);
                    }
                    let tree = self.store.tree(prev_id);
                    let tb = self.layout_tree(tree);
                    proof {
                        lemma_nodes_count_take(self.store.trees@, m - 1);
                        assert(nodes_count(self.store.trees@.take(m)) == nodes_count(
                            self.store.trees@.take(m - 1),
                        ) + node_count(self.store.trees@[m - 1]));
                        assert(NODE_WEIGHT * nodes_count(self.store.trees@.take(m)) == NODE_WEIGHT
                            * nodes_count(self.store.trees@.take(m - 1)) + NODE_WEIGHT * node_count(
                            self.store.trees@[m - 1],
                        )) by (nonlinear_arith)
                            requires
                                nodes_count(self.store.trees@.take(m)) == nodes_count(
                                    self.store.trees@.take(m - 1),
                                ) + node_count(self.store.trees@[m - 1]),
                        ;
                        assert(NODE_WEIGHT * nodes_count(self.store.trees@.take(m - 1)) >= 0)
                            by (nonlinear_arith);
                        assert(tb.total <= NODE_WEIGHT * node_count(self.store.trees@[m - 1]))
                            by (nonlinear_arith)
                            requires
                                tb.total <= NODE_WEIGHT * node_count(*tree),
                                *tree == self.store.trees@[m - 1],
                        ;
                        assert(blocks.total + tb.total <= TOTAL_LIMIT);
                        assert(tb.total <= EXPAND_BUDGET) by (nonlinear_arith)
                            requires
                                tb.total <= NODE_WEIGHT * node_count(*tree),
                                node_count(*tree) <= NODE_MAX,
                        ;
                    }
                    blocks.prepend(tb);
                    proof {
                        let j = choose|j: int|
                            0 <= j < self.store.trees@.len() && (#[trigger] self.store.trees@[j]).id
                                == prev_id;
                        assert(j == m - 1);
                        assert(root_measure(self.store, blocks.top_root) == m - 1);
                        assert forall|id: BlockId|
                            contains_block(t0.blocks@, id) implies contains_block(
                            blocks.blocks@,
                            id,
                        ) by {
                            lemma_contains_block_concat(
                                self.subtree_blocks(self.store.trees@[m - 1]),
                                pre.blocks@,
                                id,
                            );
                        }
                        let p0 = choose|p: Seq<Block>| pre.blocks@ == p + t0.blocks@;
                        let emitted = self.subtree_blocks(self.store.trees@[m - 1]);
                        assert(blocks.blocks@ =~= (emitted + p0) + t0.blocks@);
                        lemma_tree_layout_in_store(*self, m - 1);
                        assert forall|m2: u64|
                            contains_block(blocks.blocks@, BlockId::Msg(m2)) implies self.store.contains_msg(
                            m2,
                        ) by {
                            lemma_contains_block_concat(emitted, pre.blocks@, BlockId::Msg(m2));
                        }
                    }
                },
            }
        }
    }

    /// Lays out newer and newer trees below the list, and finally the band
    /// below all trees, until the viewport's last line is covered or nothing
    /// newer exists. Growth is by appending only: the old blocks survive as a
    /// prefix, and since the top line is unchanged they keep their lines.
    pub fn expand_to_bottom(&self, height: i64, blocks: &mut TreeBlocks)
        requires
            self.wf(),
            old(blocks).wf(),
            root_valid(self.store, old(blocks).bottom_root),
            old(blocks).total + EXPAND_BUDGET <= TOTAL_LIMIT,
            1 <= height <= HEIGHT_MAX,
            msgs_in_store(self.store, old(blocks).blocks@),
        ensures
            final(blocks).wf(),
            root_valid(self.store, final(blocks).bottom_root),
            final(blocks).top_root == old(blocks).top_root,
            final(blocks).top_line == old(blocks).top_line,
            final(blocks).total >= old(blocks).total,
            final(blocks).total <= old(blocks).total + EXPAND_BUDGET,
            final(blocks).spec_end_line() - 1 >= height - 1 || final(blocks).bottom_root
                == Root::Bottom,
            exists|q: Seq<Block>| final(blocks).blocks@ == old(blocks).blocks@ + q,
            msgs_in_store(self.store, final(blocks).blocks@),
            forall|id: BlockId|
                contains_block(old(blocks).blocks@, id) ==> contains_block(
                    final(blocks).blocks@,
                    id,
                ),
    {
        let ghost t0 = *old(blocks);
        let mut done = false;
        proof {
            match blocks.bottom_root {
                Root::Bottom => {},
                Root::Tree(tid) => {
                    let j = self.store.root_index(tid);
                    assert(0 <= j < self.store.trees@.len());
                    assert(self.store.trees@.skip(j + 1).len() <= self.store.trees@.len());
                    lemma_rest_count_bound(self.store, blocks.bottom_root);
                },
            }
            assert(blocks.blocks@ + Seq::<Block>::empty() =~= blocks.blocks@);
        }
        while !done && blocks.top_line + blocks.total - 1 < height - 1
            invariant
                self.wf(),
                1 <= height <= HEIGHT_MAX,
                blocks.wf(),
                t0.total + EXPAND_BUDGET <= TOTAL_LIMIT,
                0 <= t0.total,
                root_valid(self.store, blocks.bottom_root),
                blocks.top_root == t0.top_root,
                blocks.top_line == t0.top_line,
                blocks.total >= t0.total,
                done ==> blocks.bottom_root == Root::Bottom,
                blocks.total + NODE_WEIGHT * rest_count(self.store, blocks.bottom_root)
                    + NODE_WEIGHT * (if blocks.bottom_root is Bottom {
                    0int
                } else {
                    1int
                }) <= t0.total + EXPAND_BUDGET,
                exists|q: Seq<Block>| blocks.blocks@ == t0.blocks@ + q,
                msgs_in_store(self.store, blocks.blocks@),
                forall|id: BlockId|
                    contains_block(t0.blocks@, id) ==> contains_block(blocks.blocks@, id),
            decreases bottom_measure(self.store, blocks.bottom_root), (if done {
                0int
            } else {
                1int
            }),
        {
            let ghost pre = *blocks;
            let bottom_root = blocks.bottom_root;
            match bottom_root {
                Root::Bottom => {
                    done = true;
                },
                Root::Tree(tid) => {
                    proof {
                        let j = self.store.root_index(tid);
                        assert(0 <= j < self.store.trees@.len());
                    }
                    let next = self.store.next_tree_id(tid);
                    let ghost m = self.store.root_index(tid);
                    match next {
                        Some(next_id) => {
                            proof {
                                assert(self.store.trees@[m + 1].id == next_id);
                                assert(self.store.has_root(next_id));
                                assert(node_wf(self.store.trees@[m + 1]));
                                lemma_forest_member_count(self.store.trees@, m + 1);
                                assert(self.store.trees@.skip(m + 1)[0] == self.store.trees@[m
                                    + 1]);
                                assert(self.store.trees@.skip(m + 1).drop_first()
                                    =~= self.store.trees@.skip(m + 2));
                                assert(rest_count(self.store, Root::Tree(tid)) == nodes_count(
                                    self.store.trees@.skip(m + 1),
                                ));
                                assert(nodes_count(self.store.trees@.skip(m + 1)) == node_count(
                                    self.store.trees@[m + 1],
                                ) + nodes_count(self.store.trees@.skip(m + 2)));
                                assert(NODE_WEIGHT * nodes_count(self.store.trees@.skip(m + 1))
                                    == NODE_WEIGHT * node_count(self.store.trees@[m + 1])
                                    + NODE_WEIGHT * nodes_count(self.store.trees@.skip(m + 2)))
                                    by (nonlinear_arith)
                                    requires
                                        nodes_count(self.store.trees@.skip(m + 1)) == node_count(
                                            self.store.trees@[m + 1],
                                        ) + nodes_count(self.store.trees@.skip(m + 2)),
                                ;
                                assert(NODE_WEIGHT * nodes_count(self.store.trees@.skip(m + 2))
                                    >= 0) by (nonlinear_arith);
                            }
                            let tree = self.store.tree(next_id);
                            let tb = self.layout_tree(tree);
                            proof {
                                assert(tb.total <= NODE_WEIGHT * node_count(
                                    self.store.trees@[m + 1],
                                )) by (nonlinear_arith)
                                    requires
                                        tb.total <= NODE_WEIGHT * node_count(*tree),
                                        *tree == self.store.trees@[m + 1],
                                ;
                                assert(blocks.total + tb.total <= TOTAL_LIMIT);
                            }
                            blocks.append(tb);
                            proof {
                                let j = choose|j: int|
                                    0 <= j < self.store.trees@.len() && (
                                    #[trigger] self.store.trees@[j]).id == next_id;
                                assert(j == m + 1);
                                assert(rest_count(self.store, blocks.bottom_root) == nodes_count(
                                    self.store.trees@.skip(m + 2),
                                ));
                                assert forall|id: BlockId|
                                    contains_block(t0.blocks@, id) implies contains_block(
                                    blocks.blocks@,
                                    id,
                                ) by {
                                    lemma_contains_block_concat(
                                        pre.blocks@,
                                        self.subtree_blocks(self.store.trees@[m + 1]),
                                        id,
                                    );
                                }
                                let q0 = choose|q: Seq<Block>| pre.blocks@ == t0.blocks@ + q;
                                let emitted = self.subtree_blocks(self.store.trees@[m + 1]);
                                assert(blocks.blocks@ =~= t0.blocks@ + (q0 + emitted));
                                lemma_tree_layout_in_store(*self, m + 1);
                                assert forall|m2: u64|
                                    contains_block(blocks.blocks@, BlockId::Msg(m2)) implies self.store.contains_msg(
                                    m2,
                                ) by {
                                    lemma_contains_block_concat(
                                        pre.blocks@,
                                        emitted,
                                        BlockId::Msg(m2),
                                    );
                                }
                            }
                        },
                        None => {
                            let tb = self.layout_bottom();
                            proof {
                                assert(m == self.store.trees@.len() - 1);
                                assert(self.store.trees@.skip(m + 1) =~= Seq::<MsgNode>::empty());
                                assert(rest_count(self.store, Root::Tree(tid)) == 0);
                            }
                            blocks.append(tb);
                            proof {
                                assert(rest_count(self.store, blocks.bottom_root) == 0);
                                assert forall|id: BlockId|
                                    contains_block(t0.blocks@, id) implies contains_block(
                                    blocks.blocks@,
                                    id,
                                ) by {
                                    lemma_contains_block_concat(
                                        pre.blocks@,
                                        self.bottom_blocks(),
                                        id,
                                    );
                                }
                                let q0 = choose|q: Seq<Block>| pre.blocks@ == t0.blocks@ + q;
                                assert(blocks.blocks@ =~= t0.blocks@ + (q0
                                    + self.bottom_blocks()));
                                lemma_bottom_blocks_no_msgs(*self);
                                assert forall|m2: u64|
                                    contains_block(blocks.blocks@, BlockId::Msg(m2)) implies self.store.contains_msg(
                                    m2,
                                ) by {
                                    lemma_contains_block_concat(
                                        pre.blocks@,
                                        self.bottom_blocks(),
                                        BlockId::Msg(m2),
                                    );
                                }
                            }
                        },
                    }
                },
            }
        }
    }

    /// Covers the whole viewport: expand upward, clamp an overshot top to
    /// line zero, expand downward, clamp an undershot bottom to the last
    /// line, and expand upward once more. Afterward the viewport's last line
    /// is always covered, and its first line is covered unless the whole
    /// history is already on screen.
    pub fn fill_screen_and_clamp_scrolling(&self, height: i64, blocks: &mut TreeBlocks)
        requires
            self.wf(),
            old(blocks).wf(),
            root_valid(self.store, old(blocks).top_root),
            root_valid(self.store, old(blocks).bottom_root),
            old(blocks).total + 3 * EXPAND_BUDGET <= TOTAL_LIMIT,
            1 <= height <= HEIGHT_MAX,
            msgs_in_store(self.store, old(blocks).blocks@),
        ensures
            final(blocks).wf(),
            root_valid(self.store, final(blocks).top_root),
            root_valid(self.store, final(blocks).bottom_root),
            final(blocks).spec_end_line() - 1 >= height - 1,
            final(blocks).top_line <= 0 || at_history_start(self.store, final(blocks).top_root),
            final(blocks).top_line <= HEIGHT_MAX,
            final(blocks).total <= old(blocks).total + 3 * EXPAND_BUDGET,
            exists|p: Seq<Block>, q: Seq<Block>|
                final(blocks).blocks@ == p + old(blocks).blocks@ + q,
            msgs_in_store(self.store, final(blocks).blocks@),
            forall|id: BlockId|
                contains_block(old(blocks).blocks@, id) ==> contains_block(
                    final(blocks).blocks@,
                    id,
                ),
    {
        let ghost b0 = *old(blocks);
        self.expand_to_top(blocks);
        let ghost b1 = *blocks;
        if blocks.top_line() > 0 {
            blocks.set_top_line(0);
        }
        self.expand_to_bottom(height, blocks);
        let ghost b2 = *blocks;
        if blocks.top_line + blocks.total - 1 < height - 1 {
            blocks.set_bottom_line(height - 1);
        }
        self.expand_to_top(blocks);
        proof {
            let p1 = choose|p: Seq<Block>| b1.blocks@ == p + b0.blocks@;
            let q1 = choose|q: Seq<Block>| b2.blocks@ == b1.blocks@ + q;
            let p2 = choose|p: Seq<Block>| blocks.blocks@ == p + b2.blocks@;
            assert(blocks.blocks@ =~= (p2 + p1) + b0.blocks@ + q1);
        }
    }
}

/// How many messages still lie below this bottom root.
pub open spec fn rest_count(store: MsgStore, r: Root) -> int {
    match r {
        Root::Bottom => 0,
        Root::Tree(id) => nodes_count(store.trees@.skip(store.root_index(id) + 1)) as int,
    }
}

/// How many steps downward expansion can still take from this root.
pub open spec fn bottom_measure(store: MsgStore, r: Root) -> int {
    match r {
        Root::Bottom => 0,
        Root::Tree(id) => store.trees@.len() - store.root_index(id),
    }
}

/// What lies below a root is part of the whole forest.
pub proof fn lemma_rest_count_bound(store: MsgStore, r: Root)
    requires
        store.wf(),
        root_valid(store, r),
    ensures
        0 <= rest_count(store, r) <= nodes_count(store.trees@),
        NODE_WEIGHT * rest_count(store, r) <= NODE_WEIGHT * NODE_MAX,
{
    match r {
        Root::Bottom => {
            assert(NODE_WEIGHT * 0 == 0) by (nonlinear_arith);
            assert(NODE_WEIGHT * NODE_MAX >= 0) by (nonlinear_arith);
        },
        Root::Tree(id) => {
            let j = store.root_index(id);
            assert(0 <= j < store.trees@.len());
            assert(store.trees@ =~= store.trees@.take(j + 1) + store.trees@.skip(j + 1));
            lemma_nodes_count_concat(store.trees@.take(j + 1), store.trees@.skip(j + 1));
            assert(NODE_WEIGHT * rest_count(store, r) <= NODE_WEIGHT * NODE_MAX)
                by (nonlinear_arith)
                requires
                    0 <= rest_count(store, r) <= NODE_MAX,
            ;
        },
    }
}

/// A block emitted by one subtree of a forest is emitted by the forest.
pub proof fn lemma_children_contains(state: InnerTreeViewState, s: Seq<MsgNode>, i: int, id: BlockId)
    requires
        0 <= i < s.len(),
        contains_block(state.subtree_blocks(s[i]), id),
    ensures
        contains_block(state.children_blocks(s), id),
    decreases i,
{
    let rest = s.drop_first();
    if i == 0 {
        lemma_contains_block_concat(state.subtree_blocks(s[0]), state.children_blocks(rest), id);
    } else {
        assert(rest[i - 1] == s[i]);
        lemma_children_contains(state, rest, i - 1, id);
        lemma_contains_block_concat(state.subtree_blocks(s[0]), state.children_blocks(rest), id);
    }
}

/// A message whose ancestors are all unfolded is rendered; so are the ghost
/// and cursor blocks attached to it.
pub proof fn lemma_path_emitted(state: InnerTreeViewState, n: MsgNode, target: u64, p: Seq<u64>)
    requires
        path_in_node(n, target, p),
        forall|k: int| 0 <= k < p.len() - 1 ==> !state.spec_folded(#[trigger] p[k]),
    ensures
        contains_block(state.subtree_blocks(n), BlockId::Msg(target)),
        state.last_cursor.spec_refers_to(target) ==> contains_block(
            state.subtree_blocks(n),
            BlockId::LastCursor,
        ),
        state.cursor.spec_refers_to_last_child_of(target) ==> contains_block(
            state.subtree_blocks(n),
            BlockId::Cursor,
        ),
        state.last_cursor.spec_refers_to_last_child_of(target) ==> contains_block(
            state.subtree_blocks(n),
            BlockId::LastCursor,
        ),
    decreases n,
{
    let lead = if state.last_cursor.spec_refers_to(n.id) {
        seq![ghost_block()]
    } else {
        Seq::<Block>::empty()
    };
    let msg = seq![state.spec_msg_block(n)];
    let kids = if state.spec_folded(n.id) {
        Seq::<Block>::empty()
    } else {
        state.children_blocks(n.children@)
    };
    let ghost_trail = if state.last_cursor.spec_refers_to_last_child_of(n.id) {
        seq![ghost_block()]
    } else {
        Seq::<Block>::empty()
    };
    let cursor_trail = if state.cursor.spec_refers_to_last_child_of(n.id) {
        match state.cursor {
            Cursor::Editor { .. } => seq![state.spec_editor_block()],
            Cursor::Pseudo { .. } => seq![state.spec_pseudo_block()],
            _ => Seq::<Block>::empty(),
        }
    } else {
        Seq::<Block>::empty()
    };
    let whole = state.subtree_blocks(n);
    assert(whole =~= lead + msg + kids + ghost_trail + cursor_trail);
    if p.len() == 1 {
        assert(target == n.id);
        assert(whole[lead.len() as int] == state.spec_msg_block(n));
        assert(contains_block(whole, BlockId::Msg(target)));
        if state.last_cursor.spec_refers_to(target) {
            assert(whole[0] == ghost_block());
        }
        if state.cursor.spec_refers_to_last_child_of(target) {
            let k = whole.len() - 1;
            assert(whole[k as int] == cursor_trail[0]);
            assert(cursor_trail[0].id == BlockId::Cursor);
        }
        if state.last_cursor.spec_refers_to_last_child_of(target) {
            let k = lead.len() + msg.len() + kids.len();
            assert(whole[k as int] == ghost_trail[0]);
        }
    } else {
        assert(p[0] == n.id);
        assert(!state.spec_folded(n.id));
        let i = choose|i: int|
            0 <= i < n.children@.len() && path_in_node(
                #[trigger] n.children@[i],
                target,
                p.drop_first(),
            );
        assert forall|k: int| 0 <= k < p.drop_first().len() - 1 implies !state.spec_folded(
            #[trigger] p.drop_first()[k],
        ) by {
            assert(p.drop_first()[k] == p[k + 1]);
        }
        lemma_path_emitted(state, n.children@[i], target, p.drop_first());
        lemma_children_contains(state, n.children@, i, BlockId::Msg(target));
        lemma_contains_in_whole(lead, msg, kids, ghost_trail, cursor_trail, BlockId::Msg(target));
        if state.last_cursor.spec_refers_to(target) {
            lemma_children_contains(state, n.children@, i, BlockId::LastCursor);
            lemma_contains_in_whole(lead, msg, kids, ghost_trail, cursor_trail, BlockId::LastCursor);
        }
        if state.cursor.spec_refers_to_last_child_of(target) {
            lemma_children_contains(state, n.children@, i, BlockId::Cursor);
            lemma_contains_in_whole(lead, msg, kids, ghost_trail, cursor_trail, BlockId::Cursor);
        }
        if state.last_cursor.spec_refers_to_last_child_of(target) {
            lemma_children_contains(state, n.children@, i, BlockId::LastCursor);
            lemma_contains_in_whole(lead, msg, kids, ghost_trail, cursor_trail, BlockId::LastCursor);
        }
    }
}

/// A block of the middle part is a block of the five-part concatenation.
pub proof fn lemma_contains_in_whole(
    a: Seq<Block>,
    b: Seq<Block>,
    c: Seq<Block>,
    d: Seq<Block>,
    e: Seq<Block>,
    id: BlockId,
)
    requires
        contains_block(c, id),
    ensures
        contains_block(a + b + c + d + e, id),
{
    let k = choose|k: int| 0 <= k < c.len() && (#[trigger] c[k]).id == id;
    assert((a + b + c + d + e)[a.len() + b.len() + k] == c[k]);
}

/// Every rendered message belongs to the tree it was laid out from. With the
/// reachability law below, a message is rendered only if none of its
/// ancestors is folded, so no descendant of a folded message is rendered.
pub proof fn lemma_emitted_in_node(state: InnerTreeViewState, n: MsgNode, m: u64)
    requires
        contains_block(state.subtree_blocks(n), BlockId::Msg(m)),
    ensures
        in_node(n, m),
        reachable_unfolded(state, n, m),
    decreases n,
{
    let lead = if state.last_cursor.spec_refers_to(n.id) {
        seq![ghost_block()]
    } else {
        Seq::<Block>::empty()
    };
    let msg = seq![state.spec_msg_block(n)];
    let kids = if state.spec_folded(n.id) {
        Seq::<Block>::empty()
    } else {
        state.children_blocks(n.children@)
    };
    let ghost_trail = if state.last_cursor.spec_refers_to_last_child_of(n.id) {
        seq![ghost_block()]
    } else {
        Seq::<Block>::empty()
    };
    let cursor_trail = if state.cursor.spec_refers_to_last_child_of(n.id) {
        match state.cursor {
            Cursor::Editor { .. } => seq![state.spec_editor_block()],
            Cursor::Pseudo { .. } => seq![state.spec_pseudo_block()],
            _ => Seq::<Block>::empty(),
        }
    } else {
        Seq::<Block>::empty()
    };
    let whole = state.subtree_blocks(n);
    assert(whole =~= lead + msg + kids + ghost_trail + cursor_trail);
    let k = choose|k: int| 0 <= k < whole.len() && (#[trigger] whole[k]).id == BlockId::Msg(m);
    if k < lead.len() {
        assert(whole[k] == lead[k]);
        assert(false);
    } else if k < lead.len() + msg.len() {
        assert(whole[k] == msg[0]);
        assert(m == n.id);
    } else if k < lead.len() + msg.len() + kids.len() {
        assert(whole[k] == kids[k - lead.len() - msg.len()]);
        assert(contains_block(kids, BlockId::Msg(m)));
        assert(!state.spec_folded(n.id));
        lemma_emitted_in_children(state, n.children@, m);
    } else if k < lead.len() + msg.len() + kids.len() + ghost_trail.len() {
        assert(whole[k] == ghost_trail[0]);
        assert(false);
    } else {
        assert(whole[k] == cursor_trail[0]);
        assert(cursor_trail[0].id == BlockId::Cursor);
        assert(false);
    }
}

/// A message rendered by a forest belongs to one of its trees.
pub proof fn lemma_emitted_in_children(state: InnerTreeViewState, s: Seq<MsgNode>, m: u64)
    requires
        contains_block(state.children_blocks(s), BlockId::Msg(m)),
    ensures
        in_nodes(s, m),
        reachable_in_children(state, s, m),
    decreases s,
{
    assert(s.len() > 0);
    let rest = s.drop_first();
    lemma_contains_block_concat(state.subtree_blocks(s[0]), state.children_blocks(rest), BlockId::Msg(m));
    if contains_block(state.subtree_blocks(s[0]), BlockId::Msg(m)) {
        lemma_emitted_in_node(state, s[0], m);
    } else {
        lemma_emitted_in_children(state, rest, m);
    }
}

/// Law: a folded message hides its whole subtree; the only message its
/// layout renders is the folded message itself.
pub proof fn lemma_folded_hides_subtree(state: InnerTreeViewState, n: MsgNode)
    requires
        state.spec_folded(n.id),
    ensures
        forall|m: u64|
            contains_block(state.subtree_blocks(n), BlockId::Msg(m)) ==> m == n.id,
{
    assert forall|m: u64|
        contains_block(state.subtree_blocks(n), BlockId::Msg(m)) implies m == n.id by {
        lemma_emitted_in_node(state, n, m);
    }
}

/// Whether the message can be reached from the subtree's root without
/// passing below a folded message.
pub open spec fn reachable_unfolded(state: InnerTreeViewState, n: MsgNode, id: u64) -> bool
    decreases n,
{
    n.id == id || (!state.spec_folded(n.id) && reachable_in_children(state, n.children@, id))
}

/// Whether some tree of the forest reaches the message without passing below
/// a folded message.
pub open spec fn reachable_in_children(state: InnerTreeViewState, s: Seq<MsgNode>, id: u64) -> bool
    decreases s,
{
    if s.len() == 0 {
        false
    } else {
        reachable_unfolded(state, s[0], id) || reachable_in_children(state, s.drop_first(), id)
    }
}

/// Whether the cursor's message or parent exists in the store.
pub open spec fn cursor_valid(store: MsgStore, c: Cursor) -> bool {
    match c {
        Cursor::Bottom => true,
        Cursor::Msg(id) => store.contains_msg(id),
        Cursor::Editor { parent: Some(p) } => store.contains_msg(p),
        Cursor::Pseudo { parent: Some(p) } => store.contains_msg(p),
        Cursor::Editor { parent: None } => true,
        Cursor::Pseudo { parent: None } => true,
    }
}

/// Whether `p` is the id path belonging to this cursor: the path to its
/// message, or the path to its parent followed by the sentinel, or the bare
/// sentinel for positions below all trees.
pub open spec fn cursor_path_ok(store: MsgStore, c: Cursor, p: Seq<u64>) -> bool {
    match c {
        Cursor::Msg(id) => p.len() >= 1 && (exists|t: int|
            0 <= t < store.trees@.len() && (#[trigger] store.trees@[t]).id == p[0] && path_in_node(
                store.trees@[t],
                id,
                p,
            )),
        Cursor::Editor { parent: Some(q) } => p.len() >= 2 && p.last() == LAST_POSSIBLE_ID && (
        exists|t: int|
            0 <= t < store.trees@.len() && (#[trigger] store.trees@[t]).id == p[0] && path_in_node(
                store.trees@[t],
                q,
                p.drop_last(),
            )),
        Cursor::Pseudo { parent: Some(q) } => p.len() >= 2 && p.last() == LAST_POSSIBLE_ID && (
        exists|t: int|
            0 <= t < store.trees@.len() && (#[trigger] store.trees@[t]).id == p[0] && path_in_node(
                store.trees@[t],
                q,
                p.drop_last(),
            )),
        _ => p == seq![LAST_POSSIBLE_ID],
    }
}

/// Lexicographic order on id paths.
pub open spec fn spec_path_lt(a: Seq<u64>, b: Seq<u64>) -> bool
    decreases a.len(),
{
    if b.len() == 0 {
        false
    } else if a.len() == 0 {
        true
    } else if a[0] < b[0] {
        true
    } else if a[0] > b[0] {
        false
    } else {
        spec_path_lt(a.drop_first(), b.drop_first())
    }
}

/// Compares two id paths lexicographically.
pub fn path_lt(a: &Vec<u64>, b: &Vec<u64>) -> (r: bool)
    ensures
        r == spec_path_lt(a@, b@),
{
    let mut i: usize = 0;
    proof {
        assert(a@.skip(0) =~= a@);
        assert(b@.skip(0) =~= b@);
    }
    while i < a.len() && i < b.len()
        invariant
            i <= a@.len(),
            i <= b@.len(),
            spec_path_lt(a@, b@) == spec_path_lt(a@.skip(i as int), b@.skip(i as int)),
        decreases a@.len() - i,
    {
        proof {
            assert(a@.skip(i as int)[0] == a@[i as int]);
            assert(b@.skip(i as int)[0] == b@[i as int]);
            assert(a@.skip(i as int).drop_first() =~= a@.skip(i as int + 1));
            assert(b@.skip(i as int).drop_first() =~= b@.skip(i as int + 1));
        }
        if a[i] < b[i] {
            return true;
        }
        if a[i] > b[i] {
            return false;
        }
        i = i + 1;
    }
    proof {
        if i >= a@.len() {
            assert(a@.skip(i as int) =~= Seq::<u64>::empty());
        } else {
            assert(b@.skip(i as int) =~= Seq::<u64>::empty());
        }
    }
    a.len() < b.len()
}

impl InnerTreeViewState {
    /// The id path belonging to a cursor: the path to its message, the path
    /// to its parent followed by the sentinel, or the bare sentinel.
    pub fn cursor_path(&self, cursor: &Cursor) -> (r: Vec<u64>)
        requires
            self.wf(),
            cursor_valid(self.store, *cursor),
        ensures
            cursor_path_ok(self.store, *cursor, r@),
            r@.len() >= 1,
    {
        match cursor {
            Cursor::Msg(id) => {
                let p = self.store.path(*id);
                proof {
                    let t = choose|t: int|
                        0 <= t < self.store.trees@.len() && (#[trigger] self.store.trees@[t]).id
                            == p@[0] && path_in_node(self.store.trees@[t], *id, p@);
                    assert(path_in_node(self.store.trees@[t], *id, p@));
                }
                p
            },
            Cursor::Bottom => {
                let mut p: Vec<u64> = Vec::new();
                p.push(LAST_POSSIBLE_ID);
                proof {
                    assert(p@ =~= seq![LAST_POSSIBLE_ID]);
                }
                p
            },
            Cursor::Editor { parent: None } => {
                let mut p: Vec<u64> = Vec::new();
                p.push(LAST_POSSIBLE_ID);
                proof {
                    assert(p@ =~= seq![LAST_POSSIBLE_ID]);
                }
                p
            },
            Cursor::Pseudo { parent: None } => {
                let mut p: Vec<u64> = Vec::new();
                p.push(LAST_POSSIBLE_ID);
                proof {
                    assert(p@ =~= seq![LAST_POSSIBLE_ID]);
                }
                p
            },
            Cursor::Editor { parent: Some(q) } => {
                let mut p = self.store.path(*q);
                let ghost p0 = p@;
                p.push(LAST_POSSIBLE_ID);
                proof {
                    assert(p@.drop_last() =~= p0);
                    assert(p@.last() == LAST_POSSIBLE_ID);
                }
                p
            },
            Cursor::Pseudo { parent: Some(q) } => {
                let mut p = self.store.path(*q);
                let ghost p0 = p@;
                p.push(LAST_POSSIBLE_ID);
                proof {
                    assert(p@.drop_last() =~= p0);
                    assert(p@.last() == LAST_POSSIBLE_ID);
                }
                p
            },
        }
    }

    /// Unfolds every ancestor on the path, so the message at its end will be
    /// rendered by the next pass.
    pub fn make_path_visible(&mut self, path: &Vec<u64>)
        requires
            old(self).wf(),
            path@.len() >= 1,
        ensures
            final(self).wf(),
            forall|x: u64|
                final(self).spec_folded(x) <==> (old(self).spec_folded(x)
                    && !path@.subrange(0, path@.len() - 1).contains(x)),
            forall|x: u64| final(self).spec_folded(x) ==> old(self).spec_folded(x),
            final(self).store == old(self).store,
            final(self).cursor == old(self).cursor,
            final(self).last_cursor == old(self).last_cursor,
            final(self).last_cursor_line == old(self).last_cursor_line,
            final(self).last_visible_msgs == old(self).last_visible_msgs,
            final(self).correction == old(self).correction,
            final(self).scroll == old(self).scroll,
            final(self).editor_height == old(self).editor_height,
            final(self).editor_row == old(self).editor_row,
    {
        let ghost segs = path@.subrange(0, path@.len() - 1);
        let ghost pred = (|y: u64| !segs.contains(y));
        let segs_len: usize = path.len() - 1;
        let mut kept: Vec<u64> = Vec::new();
        let mut i: usize = 0;
        proof {
            assert(self.folded@.take(0) =~= Seq::<u64>::empty());
            reveal(Seq::filter);
            assert(kept@ == self.folded@.take(0).filter(pred));
        }
        while i < self.folded.len()
            invariant
                i <= self.folded@.len(),
                *self == *old(self),
                path@.len() >= 1,
                segs_len as int == path@.len() - 1,
                segs == path@.subrange(0, path@.len() - 1),
                pred == (|y: u64| !segs.contains(y)),
                kept@ == self.folded@.take(i as int).filter(pred),
            decreases self.folded@.len() - i,
        {
            let ghost kept0 = kept@;
            let x = self.folded[i];
            let mut in_segs = false;
            let mut k: usize = 0;
            while k < segs_len
                invariant
                    k <= segs_len,
                    segs_len as int == path@.len() - 1,
                    path@.len() >= 1,
                    segs == path@.subrange(0, path@.len() - 1),
                    in_segs ==> segs.contains(x),
                    !in_segs ==> forall|j: int| 0 <= j < k ==> segs[j] != x,
                decreases segs_len - k,
            {
                if path[k] == x {
                    proof {
                        assert(segs[k as int] == x);
                    }
                    in_segs = true;
                }
                k = k + 1;
            }
            proof {
                if !in_segs {
                    assert(forall|j: int| 0 <= j < segs.len() ==> segs[j] != x);
                    if segs.contains(x) {
                        let j = choose|j: int| 0 <= j < segs.len() && segs[j] == x;
                        assert(false);
                    }
                }
                assert(in_segs == segs.contains(x));
            }
            if !in_segs {
                kept.push(x);
            }
            proof {
                reveal(Seq::filter);
                assert(self.folded@.take(i as int + 1).drop_last() =~= self.folded@.take(i as int));
                assert(self.folded@.take(i as int + 1).last() == x);
                assert(pred(x) == !in_segs);
                assert(kept@ == self.folded@.take(i as int + 1).filter(pred));
            }
            i = i + 1;
        }
        proof {
            assert(self.folded@.take(self.folded@.len() as int) =~= self.folded@);
            assert(kept@ == self.folded@.filter(pred));
        }
        self.folded = kept;
        proof {
            assert forall|x: u64|
                #![trigger path@.subrange(0, path@.len() - 1).contains(x)]
                self.spec_folded(x) <==> (old(self).spec_folded(x) && !path@.subrange(
                    0,
                    path@.len() - 1,
                ).contains(x)) by {
                let orig = old(self).folded@;
                assert(self.folded@ == orig.filter(pred));
                if self.spec_folded(x) {
                    let j = choose|j: int|
                        0 <= j < self.folded@.len() && self.folded@[j] == x;
                    orig.lemma_filter_pred(pred, j);
                    assert(self.folded@.contains(x));
                    orig.lemma_filter_contains_rev(pred, x);
                    let j2 = choose|j2: int| 0 <= j2 < orig.len() && orig[j2] == x;
                    assert(old(self).spec_folded(x));
                }
                if old(self).spec_folded(x) && !path@.subrange(0, path@.len() - 1).contains(x) {
                    let j = choose|j: int| 0 <= j < orig.len() && orig[j] == x;
                    assert(pred(orig[j]));
                    orig.lemma_filter_contains(pred, j);
                    assert(self.folded@.contains(x));
                    let j2 = choose|j2: int|
                        0 <= j2 < self.folded@.len() && self.folded@[j2] == x;
                    assert(self.spec_folded(x));
                }
            }
        }
    }
}

/// A block's vertical extent starting at `line` touches the band
/// `[first, last]`.
pub open spec fn spec_visible_at(h: int, line: int, first: int, last: int) -> bool {
    first + 1 - h <= line <= last
}

/// The message ids of the blocks whose extent touches the band, in order,
/// with the first block starting at `line`.
pub open spec fn visible_ids(s: Seq<Block>, line: int, first: int, last: int) -> Seq<u64>
    decreases s,
{
    if s.len() == 0 {
        Seq::<u64>::empty()
    } else {
        let rest = visible_ids(s.drop_first(), line + s[0].height, first, last);
        if spec_visible_at(s[0].height as int, line, first, last) {
            match s[0].id {
                BlockId::Msg(m) => seq![m] + rest,
                _ => rest,
            }
        } else {
            rest
        }
    }
}

/// Law: the visible set holds exactly the messages among the blocks whose
/// vertical extent touches the band; the committed `last_visible_msgs` of a
/// pass therefore holds exactly the rendered messages that touch the
/// viewport.
pub proof fn lemma_visible_ids_members(s: Seq<Block>, line: int, first: int, last: int)
    ensures
        forall|m: u64|
            #![trigger visible_ids(s, line, first, last).contains(m)]
            visible_ids(s, line, first, last).contains(m) <==> (exists|k: int|
                0 <= k < s.len() && (#[trigger] s[k]).id == BlockId::Msg(m) && spec_visible_at(
                    s[k].height as int,
                    line + total_height(s.take(k)),
                    first,
                    last,
                )),
    decreases s,
{
    if s.len() == 0 {
    } else {
        let rest = s.drop_first();
        let line2 = line + s[0].height;
        lemma_visible_ids_members(rest, line2, first, last);
        let whole = visible_ids(s, line, first, last);
        let tail = visible_ids(rest, line2, first, last);
        assert(s.take(0) =~= Seq::<Block>::empty());
        assert forall|k: int| 1 <= k < s.len() implies line + total_height(#[trigger] s.take(k))
            == line2 + total_height(rest.take(k - 1)) by {
            assert(s.take(k) =~= seq![s[0]] + rest.take(k - 1));
            crate::blocks::lemma_total_height_concat(seq![s[0]], rest.take(k - 1));
            lemma_singleton_height(s[0]);
        }
        assert forall|m: u64|
            #![trigger visible_ids(s, line, first, last).contains(m)]
            visible_ids(s, line, first, last).contains(m) <==> (exists|k: int|
                0 <= k < s.len() && (#[trigger] s[k]).id == BlockId::Msg(m) && spec_visible_at(
                    s[k].height as int,
                    line + total_height(s.take(k)),
                    first,
                    last,
                )) by {
            let head_hit = spec_visible_at(s[0].height as int, line, first, last) && s[0].id
                == BlockId::Msg(m);
            if whole.contains(m) {
                let j = choose|j: int| 0 <= j < whole.len() && whole[j] == m;
                if spec_visible_at(s[0].height as int, line, first, last) && (s[0].id matches
                BlockId::Msg(_)) {
                    if j == 0 && head_hit {
                        assert(s[0].id == BlockId::Msg(m) && spec_visible_at(
                            s[0].height as int,
                            line + total_height(s.take(0)),
                            first,
                            last,
                        ));
                    } else {
                        assert(whole[j] == tail[j - 1] || whole[0] == m);
                        if whole[j] == tail[j - 1] {
                            assert(tail.contains(m));
                            let k = choose|k: int|
                                0 <= k < rest.len() && (#[trigger] rest[k]).id == BlockId::Msg(m)
                                    && spec_visible_at(
                                    rest[k].height as int,
                                    line2 + total_height(rest.take(k)),
                                    first,
                                    last,
                                );
                            assert(s[k + 1] == rest[k]);
                        } else {
                            assert(s[0].id == BlockId::Msg(m));
                        }
                    }
                } else {
                    assert(whole == tail);
                    assert(tail.contains(m));
                    let k = choose|k: int|
                        0 <= k < rest.len() && (#[trigger] rest[k]).id == BlockId::Msg(m)
                            && spec_visible_at(
                            rest[k].height as int,
                            line2 + total_height(rest.take(k)),
                            first,
                            last,
                        );
                    assert(s[k + 1] == rest[k]);
                }
            }
            if exists|k: int|
                0 <= k < s.len() && (#[trigger] s[k]).id == BlockId::Msg(m) && spec_visible_at(
                    s[k].height as int,
                    line + total_height(s.take(k)),
                    first,
                    last,
                ) {
                let k = choose|k: int|
                    0 <= k < s.len() && (#[trigger] s[k]).id == BlockId::Msg(m) && spec_visible_at(
                        s[k].height as int,
                        line + total_height(s.take(k)),
                        first,
                        last,
                    );
                if k == 0 {
                    assert(whole[0] == m);
                } else {
                    assert(rest[k - 1] == s[k]);
                    assert(rest.take(k - 1) =~= rest.take(k - 1));
                    assert(tail.contains(m));
                    let j = choose|j: int| 0 <= j < tail.len() && tail[j] == m;
                    if spec_visible_at(s[0].height as int, line, first, last) && (s[0].id matches
                    BlockId::Msg(_)) {
                        assert(whole[j + 1] == tail[j]);
                    } else {
                        assert(whole == tail);
                    }
                }
            }
        }
    }
}

/// Whether the block at this index renders a message and its extent touches
/// the band.
pub open spec fn msg_visible_at(blocks: TreeBlocks, k: int, first: int, last: int) -> bool {
    &&& (blocks.blocks@[k].id matches BlockId::Msg(_))
    &&& spec_visible_at(blocks.blocks@[k].height as int, blocks.spec_line_of(k), first, last)
}

/// Every message block in the list is a message the store holds.
pub open spec fn msgs_in_store(store: MsgStore, s: Seq<Block>) -> bool {
    forall|m: u64| contains_block(s, BlockId::Msg(m)) ==> store.contains_msg(m)
}

/// What a downward walk picks: the first message block inside the band, and
/// nothing exactly when no message block is inside it.
pub open spec fn picked_first_visible(
    blocks: TreeBlocks,
    first: int,
    last: int,
    r: Option<u64>,
) -> bool {
    match r {
        None => forall|k: int|
            0 <= k < blocks.blocks@.len() ==> !msg_visible_at(blocks, k, first, last),
        Some(id) => exists|k: int|
            0 <= k < blocks.blocks@.len() && #[trigger] msg_visible_at(blocks, k, first, last)
                && blocks.blocks@[k].id == BlockId::Msg(id) && (forall|j: int|
                0 <= j < k ==> !msg_visible_at(blocks, j, first, last)),
    }
}

/// What an upward walk picks: the last message block inside the band, and
/// nothing exactly when no message block is inside it.
pub open spec fn picked_last_visible(
    blocks: TreeBlocks,
    first: int,
    last: int,
    r: Option<u64>,
) -> bool {
    match r {
        None => forall|k: int|
            0 <= k < blocks.blocks@.len() ==> !msg_visible_at(blocks, k, first, last),
        Some(id) => exists|k: int|
            0 <= k < blocks.blocks@.len() && #[trigger] msg_visible_at(blocks, k, first, last)
                && blocks.blocks@[k].id == BlockId::Msg(id) && (forall|j: int|
                k < j < blocks.blocks@.len() ==> !msg_visible_at(blocks, j, first, last)),
    }
}

/// What the move-to-visible correction does: nothing when the cursor is not
/// a bottom or message cursor or when its block already touches the band;
/// else the cursor moves to the first message block of the band when its
/// block lay above the band, and to the last one when it lay below or the
/// cursor was locked to the bottom.
pub open spec fn move_cursor_post(
    state: InnerTreeViewState,
    blocks: TreeBlocks,
    height: int,
    r: Option<u64>,
) -> bool {
    let so = spec_scrolloff(height);
    let first = so;
    let last = height - 1 - so;
    match state.cursor {
        Cursor::Bottom => picked_last_visible(blocks, first, last, r),
        Cursor::Msg(_) => {
            let k = find_index(blocks.blocks@, BlockId::spec_from_cursor(state.cursor));
            let b = blocks.blocks@[k];
            if spec_visible_at(b.height as int, blocks.spec_line_of(k), first, last) {
                r is None
            } else if blocks.spec_line_of(k) < first {
                picked_first_visible(blocks, first, last, r)
            } else {
                picked_last_visible(blocks, first, last, r)
            }
        },
        _ => r is None,
    }
}

/// Every message a tree's layout renders is a message of the store the tree
/// came from.
pub proof fn lemma_tree_layout_in_store(state: InnerTreeViewState, ti: int)
    requires
        0 <= ti < state.store.trees@.len(),
    ensures
        msgs_in_store(state.store, state.subtree_blocks(state.store.trees@[ti])),
{
    assert forall|m: u64|
        contains_block(state.subtree_blocks(state.store.trees@[ti]), BlockId::Msg(m)) implies state.store.contains_msg(
        m,
    ) by {
        lemma_emitted_in_node(state, state.store.trees@[ti], m);
        crate::store::lemma_in_nodes_member(state.store.trees@, ti, m);
    }
}

/// The band below all trees renders no message at all.
pub proof fn lemma_bottom_blocks_no_msgs(state: InnerTreeViewState)
    ensures
        forall|m: u64| !contains_block(state.bottom_blocks(), BlockId::Msg(m)),
{
    let lead = match state.last_cursor {
        Cursor::Editor { parent: None } => seq![ghost_block()],
        Cursor::Pseudo { parent: None } => seq![ghost_block()],
        _ => Seq::<Block>::empty(),
    };
    let cur = match state.cursor {
        Cursor::Bottom => seq![bottom_cursor_block()],
        Cursor::Editor { parent: None } => seq![state.spec_editor_block()],
        Cursor::Pseudo { parent: None } => seq![state.spec_pseudo_block()],
        _ => Seq::<Block>::empty(),
    };
    assert forall|m: u64| !contains_block(state.bottom_blocks(), BlockId::Msg(m)) by {
        if contains_block(state.bottom_blocks(), BlockId::Msg(m)) {
            let k = choose|k: int|
                0 <= k < state.bottom_blocks().len() && (#[trigger] state.bottom_blocks()[k]).id
                    == BlockId::Msg(m);
            if k < lead.len() {
                assert(state.bottom_blocks()[k] == lead[0]);
            } else {
                assert(state.bottom_blocks()[k] == cur[k - lead.len()]);
            }
            assert(false);
        }
    }
}

/// The preferred top line for a block: clamped into `[minl, maxl]`, with the
/// lower bound winning when the range is empty, so an over-tall block shows
/// its top.
pub open spec fn clamp_pref_top(v: int, minl: int, maxl: int) -> int {
    let a = if v < maxl {
        v
    } else {
        maxl
    };
    if a > minl {
        a
    } else {
        minl
    }
}

/// What the make-visible and center corrections do to the block list: shift
/// every block so the cursor block's top moves to the clamped target.
pub open spec fn scroll_correction_post(
    state: InnerTreeViewState,
    pre: TreeBlocks,
    post: TreeBlocks,
    height: int,
    centered: bool,
) -> bool {
    let id = BlockId::spec_from_cursor(state.cursor);
    let k = find_index(pre.blocks@, id);
    let b = pre.blocks@[k];
    let btop = pre.spec_line_of(k);
    let so = spec_scrolloff(height);
    let minl = so - b.focus_start;
    let maxl = height - b.focus_end - so;
    let v = if centered {
        if height >= b.height {
            (height - b.height) / 2
        } else {
            -((b.height - height) / 2)
        }
    } else {
        btop
    };
    let newt = clamp_pref_top(v, minl, maxl);
    post.top_line == pre.top_line + (newt - btop)
}

/// The trace a scroll correction leaves in a pass: a pre-correction list
/// holding the cursor's block, the same blocks shifted so the cursor block's
/// top moves to the clamped target, and a final list that only extends the
/// shifted one above and below.
pub open spec fn correction_trace(
    state: InnerTreeViewState,
    pre: TreeBlocks,
    post: TreeBlocks,
    r: TreeBlocks,
    height: int,
    centered: bool,
) -> bool {
    &&& pre.wf()
    &&& contains_block(pre.blocks@, BlockId::spec_from_cursor(state.cursor))
    &&& post.blocks@ == pre.blocks@
    &&& scroll_correction_post(state, pre, post, height, centered)
    &&& (exists|p: Seq<Block>, q: Seq<Block>| r.blocks@ == p + post.blocks@ + q)
}

/// Law: after the make-visible correction the cursor block's focus rows lie
/// inside the scrolloff band, or, when they are taller than the band, the
/// first focus row sits exactly at the scrolloff line.
pub proof fn lemma_make_cursor_visible(
    state: InnerTreeViewState,
    pre: TreeBlocks,
    post: TreeBlocks,
    height: int,
)
    requires
        pre.wf(),
        post.wf(),
        !(state.cursor is Bottom),
        contains_block(pre.blocks@, BlockId::spec_from_cursor(state.cursor)),
        post.blocks@ == pre.blocks@,
        scroll_correction_post(state, pre, post, height, false),
        1 <= height,
        ({
            let k = find_index(pre.blocks@, BlockId::spec_from_cursor(state.cursor));
            pre.blocks@[k].focus_start < pre.blocks@[k].focus_end
        }),
    ensures
        ({
            let k = find_index(pre.blocks@, BlockId::spec_from_cursor(state.cursor));
            let b = pre.blocks@[k];
            let t = post.spec_line_of(k);
            let so = spec_scrolloff(height);
            (t + b.focus_start == so) || (so <= t + b.focus_start && t + b.focus_end <= height
                - so)
        }),
{
}

/// Law: after the center correction the cursor block's top lies at the
/// centering line `(height - block height) / 2`, clamped into the scrolloff
/// band exactly as the make-visible correction clamps.
pub proof fn lemma_center_cursor(
    state: InnerTreeViewState,
    pre: TreeBlocks,
    post: TreeBlocks,
    height: int,
)
    requires
        pre.wf(),
        post.wf(),
        !(state.cursor is Bottom),
        contains_block(pre.blocks@, BlockId::spec_from_cursor(state.cursor)),
        post.blocks@ == pre.blocks@,
        scroll_correction_post(state, pre, post, height, true),
    ensures
        ({
            let k = find_index(pre.blocks@, BlockId::spec_from_cursor(state.cursor));
            let b = pre.blocks@[k];
            let so = spec_scrolloff(height);
            post.spec_line_of(k) == clamp_pref_top(
                if height >= b.height {
                    (height - b.height) / 2
                } else {
                    -((b.height - height) / 2)
                },
                so - b.focus_start,
                height - b.focus_end - so,
            )
        }),
{
}

impl InnerTreeViewState {
    /// A fresh block list anchored where the previous pass left the cursor:
    /// the band below all trees pinned to the viewport bottom, or the
    /// previous cursor's tree re-anchored at the remembered line.
    pub fn layout_last_cursor_seed(&self, height: i64, last_cursor_path: &Vec<u64>) -> (r:
        TreeBlocks)
        requires
            self.wf(),
            1 <= height <= HEIGHT_MAX,
            match self.last_cursor {
                Cursor::Bottom => true,
                Cursor::Editor { parent: None } => true,
                Cursor::Pseudo { parent: None } => true,
                _ => last_cursor_path@.len() >= 1 && self.store.has_root(last_cursor_path@[0]),
            },
        ensures
            r.wf(),
            root_valid(self.store, r.top_root),
            root_valid(self.store, r.bottom_root),
            r.total <= EXPAND_BUDGET,
            -ANCHOR_LIMIT - TOTAL_LIMIT <= r.top_line <= ANCHOR_LIMIT + TOTAL_LIMIT,
            msgs_in_store(self.store, r.blocks@),
            match self.last_cursor {
                Cursor::Bottom => r.blocks@ == self.bottom_blocks(),
                Cursor::Editor { parent: None } => r.blocks@ == self.bottom_blocks(),
                Cursor::Pseudo { parent: None } => r.blocks@ == self.bottom_blocks(),
                _ => r.blocks@ == self.subtree_blocks(
                    self.store.trees@[self.store.root_index(last_cursor_path@[0])],
                ),
            },
    {
        proof {
            lemma_bottom_blocks_no_msgs(*self);
        }
        match self.last_cursor {
            Cursor::Bottom => {
                let mut blocks = self.layout_bottom();
                blocks.set_bottom_line(height - 1);
                blocks
            },
            Cursor::Editor { parent: None } | Cursor::Pseudo { parent: None } => {
                let mut blocks = self.layout_bottom();
                if blocks.find(BlockId::LastCursor).is_some() {
                    blocks.recalculate_offsets(BlockId::LastCursor, self.last_cursor_line);
                    proof {
                        crate::blocks::lemma_total_height_bounds(blocks.blocks@);
                        assert(0 <= total_height(
                            blocks.blocks@.take(find_index(blocks.blocks@, BlockId::LastCursor)),
                        ) <= blocks.total);
                    }
                }
                blocks
            },
            _ => {
                let root = last_cursor_path[0];
                let tree = self.store.tree(root);
                proof {
                    let t = self.store.root_index(root);
                    assert(node_wf(self.store.trees@[t]));
                    lemma_forest_member_count(self.store.trees@, t);
                    lemma_tree_layout_in_store(*self, t);
                }
                let mut blocks = self.layout_tree(tree);
                proof {
                    assert(blocks.total <= NODE_WEIGHT * NODE_MAX) by (nonlinear_arith)
                        requires
                            blocks.total <= NODE_WEIGHT * node_count(*tree),
                            node_count(*tree) <= NODE_MAX,
                    ;
                }
                if blocks.find(BlockId::LastCursor).is_some() {
                    blocks.recalculate_offsets(BlockId::LastCursor, self.last_cursor_line);
                    proof {
                        crate::blocks::lemma_total_height_bounds(blocks.blocks@);
                        assert(0 <= total_height(
                            blocks.blocks@.take(find_index(blocks.blocks@, BlockId::LastCursor)),
                        ) <= blocks.total);
                    }
                }
                blocks
            },
        }
    }

    /// A fresh block list anchored at the cursor itself: the band below all
    /// trees pinned to the viewport bottom, or the cursor's own tree with the
    /// cursor block pinned to the top or bottom line, above when the cursor
    /// moved up past the previous one and below otherwise. The cursor's block
    /// is always in the result.
    pub fn layout_cursor_seed(
        &self,
        height: i64,
        last_cursor_path: &Vec<u64>,
        cursor_path: &Vec<u64>,
    ) -> (r: TreeBlocks)
        requires
            self.wf(),
            1 <= height <= HEIGHT_MAX,
            cursor_path_ok(self.store, self.cursor, cursor_path@),
            forall|k: int|
                0 <= k < cursor_path@.len() - 1 ==> !self.spec_folded(#[trigger] cursor_path@[k]),
        ensures
            r.wf(),
            root_valid(self.store, r.top_root),
            root_valid(self.store, r.bottom_root),
            r.total <= EXPAND_BUDGET,
            -ANCHOR_LIMIT - TOTAL_LIMIT <= r.top_line <= ANCHOR_LIMIT + TOTAL_LIMIT,
            msgs_in_store(self.store, r.blocks@),
            contains_block(r.blocks@, BlockId::spec_from_cursor(self.cursor)),
    {
        proof {
            lemma_bottom_blocks_no_msgs(*self);
        }
        match self.cursor {
            Cursor::Bottom | Cursor::Editor { parent: None } | Cursor::Pseudo { parent: None } => {
                let mut blocks = self.layout_bottom();
                blocks.set_bottom_line(height - 1);
                proof {
                    let lead = match self.last_cursor {
                        Cursor::Editor { parent: None } => seq![ghost_block()],
                        Cursor::Pseudo { parent: None } => seq![ghost_block()],
                        _ => Seq::<Block>::empty(),
                    };
                    assert(blocks.blocks@[lead.len() as int].id == BlockId::spec_from_cursor(
                        self.cursor,
                    ));
                }
                blocks
            },
            _ => {
                let root = cursor_path[0];
                proof {
                    let t = choose|t: int|
                        0 <= t < self.store.trees@.len() && (#[trigger] self.store.trees@[t]).id
                            == cursor_path@[0];
                    assert(self.store.has_root(root));
                }
                let tree = self.store.tree(root);
                proof {
                    let ti = self.store.root_index(root);
                    assert(node_wf(self.store.trees@[ti]));
                    lemma_forest_member_count(self.store.trees@, ti);
                    lemma_tree_layout_in_store(*self, ti);
                }
                let mut blocks = self.layout_tree(tree);
                proof {
                    assert(blocks.total <= NODE_WEIGHT * NODE_MAX) by (nonlinear_arith)
                        requires
                            blocks.total <= NODE_WEIGHT * node_count(*tree),
                            node_count(*tree) <= NODE_MAX,
                    ;
                    let ti = self.store.root_index(root);
                    match self.cursor {
                        Cursor::Msg(id) => {
                            let t = choose|t: int|
                                0 <= t < self.store.trees@.len() && (
                                #[trigger] self.store.trees@[t]).id == cursor_path@[0]
                                    && path_in_node(self.store.trees@[t], id, cursor_path@);
                            assert(t == ti);
                            lemma_path_emitted(*self, self.store.trees@[ti], id, cursor_path@);
                        },
                        Cursor::Editor { parent: Some(q) } => {
                            let t = choose|t: int|
                                0 <= t < self.store.trees@.len() && (
                                #[trigger] self.store.trees@[t]).id == cursor_path@[0]
                                    && path_in_node(
                                    self.store.trees@[t],
                                    q,
                                    cursor_path@.drop_last(),
                                );
                            assert(t == ti);
                            assert forall|k: int|
                                0 <= k < cursor_path@.drop_last().len() - 1 implies !self.spec_folded(
                                #[trigger] cursor_path@.drop_last()[k],
                            ) by {
                                assert(cursor_path@.drop_last()[k] == cursor_path@[k]);
                            }
                            lemma_path_emitted(
                                *self,
                                self.store.trees@[ti],
                                q,
                                cursor_path@.drop_last(),
                            );
                        },
                        Cursor::Pseudo { parent: Some(q) } => {
                            let t = choose|t: int|
                                0 <= t < self.store.trees@.len() && (
                                #[trigger] self.store.trees@[t]).id == cursor_path@[0]
                                    && path_in_node(
                                    self.store.trees@[t],
                                    q,
                                    cursor_path@.drop_last(),
                                );
                            assert(t == ti);
                            assert forall|k: int|
                                0 <= k < cursor_path@.drop_last().len() - 1 implies !self.spec_folded(
                                #[trigger] cursor_path@.drop_last()[k],
                            ) by {
                                assert(cursor_path@.drop_last()[k] == cursor_path@[k]);
                            }
                            lemma_path_emitted(
                                *self,
                                self.store.trees@[ti],
                                q,
                                cursor_path@.drop_last(),
                            );
                        },
                        _ => {},
                    }
                }
                let cursor_above_last = path_lt(cursor_path, last_cursor_path);
                let cursor_line: i64 = if cursor_above_last {
                    0
                } else {
                    height - 1
                };
                blocks.recalculate_offsets(BlockId::from_cursor(&self.cursor), cursor_line);
                proof {
                    crate::blocks::lemma_find_index_bounds(
                        blocks.blocks@,
                        BlockId::spec_from_cursor(self.cursor),
                    );
                    crate::blocks::lemma_total_height_bounds(blocks.blocks@);
                    assert(0 <= total_height(
                        blocks.blocks@.take(
                            find_index(blocks.blocks@, BlockId::spec_from_cursor(self.cursor)),
                        ),
                    ) <= blocks.total);
                }
                blocks
            },
        }
    }

    /// The first full screen of the pass: anchored at the cursor when the
    /// cursor is locked to the bottom, else at the previous cursor position.
    pub fn layout_initial_seed(
        &self,
        height: i64,
        last_cursor_path: &Vec<u64>,
        cursor_path: &Vec<u64>,
    ) -> (r: TreeBlocks)
        requires
            self.wf(),
            1 <= height <= HEIGHT_MAX,
            cursor_path_ok(self.store, self.cursor, cursor_path@),
            cursor_path_ok(self.store, self.last_cursor, last_cursor_path@),
            forall|k: int|
                0 <= k < cursor_path@.len() - 1 ==> !self.spec_folded(#[trigger] cursor_path@[k]),
        ensures
            r.wf(),
            root_valid(self.store, r.top_root),
            root_valid(self.store, r.bottom_root),
            r.total <= EXPAND_BUDGET,
            -ANCHOR_LIMIT - TOTAL_LIMIT <= r.top_line <= ANCHOR_LIMIT + TOTAL_LIMIT,
            msgs_in_store(self.store, r.blocks@),
    {
        proof {
            match self.last_cursor {
                Cursor::Msg(id) => {
                    let t = choose|t: int|
                        0 <= t < self.store.trees@.len() && (#[trigger] self.store.trees@[t]).id
                            == last_cursor_path@[0] && path_in_node(
                            self.store.trees@[t],
                            id,
                            last_cursor_path@,
                        );
                },
                Cursor::Editor { parent: Some(q) } => {
                    let t = choose|t: int|
                        0 <= t < self.store.trees@.len() && (#[trigger] self.store.trees@[t]).id
                            == last_cursor_path@[0] && path_in_node(
                            self.store.trees@[t],
                            q,
                            last_cursor_path@.drop_last(),
                        );
                },
                Cursor::Pseudo { parent: Some(q) } => {
                    let t = choose|t: int|
                        0 <= t < self.store.trees@.len() && (#[trigger] self.store.trees@[t]).id
                            == last_cursor_path@[0] && path_in_node(
                            self.store.trees@[t],
                            q,
                            last_cursor_path@.drop_last(),
                        );
                },
                _ => {},
            }
        }
        if self.cursor.refers_to_bottom() {
            self.layout_cursor_seed(height, last_cursor_path, cursor_path)
        } else {
            self.layout_last_cursor_seed(height, last_cursor_path)
        }
    }

    /// Whether the cursor's block is somewhere in the list.
    pub fn contains_cursor(&self, blocks: &TreeBlocks) -> (r: bool)
        requires
            blocks.wf(),
        ensures
            r == contains_block(blocks.blocks@, BlockId::spec_from_cursor(self.cursor)),
    {
        blocks.find(BlockId::from_cursor(&self.cursor)).is_some()
    }

    /// The line the cursor's block starts at; zero for a cursor locked to the
    /// viewport bottom, whose line is never used.
    pub fn cursor_line(&self, blocks: &TreeBlocks) -> (r: i64)
        requires
            blocks.wf(),
            !(self.cursor is Bottom) ==> contains_block(
                blocks.blocks@,
                BlockId::spec_from_cursor(self.cursor),
            ),
        ensures
            self.cursor is Bottom ==> r == 0,
            !(self.cursor is Bottom) ==> r == blocks.spec_line_of(
                find_index(blocks.blocks@, BlockId::spec_from_cursor(self.cursor)),
            ),
            r == 0 || blocks.top_line <= r <= blocks.top_line + blocks.total,
    {
        match self.cursor {
            Cursor::Bottom => 0,
            _ => {
                match blocks.find(BlockId::from_cursor(&self.cursor)) {
                    Some(pos) => {
                        proof {
                            let k = find_index(
                                blocks.blocks@,
                                BlockId::spec_from_cursor(self.cursor),
                            );
                            assert(0 <= k < blocks.blocks@.len());
                            crate::blocks::lemma_total_height_bounds(blocks.blocks@);
                            assert(0 <= total_height(blocks.blocks@.take(k)) <= total_height(
                                blocks.blocks@,
                            ));
                        }
                        pos.top_line
                    },
                    None => {
                        proof {
                            assert(false);
                        }
                        0
                    },
                }
            },
        }
    }

    /// Shifts the screen as little as possible so the cursor block's focus
    /// rows lie inside the scrolloff band; an over-tall block shows its top.
    pub fn scroll_so_cursor_is_visible(&self, height: i64, blocks: &mut TreeBlocks)
        requires
            self.wf(),
            old(blocks).wf(),
            1 <= height <= HEIGHT_MAX,
            -LINE_LIMIT / 2 <= old(blocks).top_line <= LINE_LIMIT / 2,
            !(self.cursor is Bottom) ==> contains_block(
                old(blocks).blocks@,
                BlockId::spec_from_cursor(self.cursor),
            ),
        ensures
            final(blocks).wf(),
            final(blocks).blocks@ == old(blocks).blocks@,
            final(blocks).total == old(blocks).total,
            final(blocks).top_root == old(blocks).top_root,
            final(blocks).bottom_root == old(blocks).bottom_root,
            self.cursor is Bottom ==> *final(blocks) == *old(blocks),
            !(self.cursor is Bottom) ==> scroll_correction_post(
                *self,
                *old(blocks),
                *final(blocks),
                height as int,
                false,
            ),
    {
        if self.cursor.refers_to_bottom() {
            return ;
        }
        let pos = match blocks.find(BlockId::from_cursor(&self.cursor)) {
            Some(pos) => pos,
            None => {
                proof {
                    assert(false);
                }
                return ;
            },
        };
        proof {
            crate::blocks::lemma_total_height_bounds(blocks.blocks@);
            assert(0 <= total_height(
                blocks.blocks@.take(
                    find_index(blocks.blocks@, BlockId::spec_from_cursor(self.cursor)),
                ),
            ) <= blocks.total);
        }
        let so = scrolloff(height);
        let min_line = so - pos.focus_start;
        let max_line = height - pos.focus_end - so;
        let top_line = pos.top_line;
        let a = if top_line < max_line {
            top_line
        } else {
            max_line
        };
        let new_top_line = if a > min_line {
            a
        } else {
            min_line
        };
        if new_top_line != top_line {
            blocks.offset(new_top_line - top_line);
        }
    }

    /// Shifts the screen so the cursor block is centered, clamped into the
    /// scrolloff band exactly as the make-visible correction clamps.
    pub fn scroll_so_cursor_is_centered(&self, height: i64, blocks: &mut TreeBlocks)
        requires
            self.wf(),
            old(blocks).wf(),
            1 <= height <= HEIGHT_MAX,
            -LINE_LIMIT / 2 <= old(blocks).top_line <= LINE_LIMIT / 2,
            !(self.cursor is Bottom) ==> contains_block(
                old(blocks).blocks@,
                BlockId::spec_from_cursor(self.cursor),
            ),
        ensures
            final(blocks).wf(),
            final(blocks).blocks@ == old(blocks).blocks@,
            final(blocks).total == old(blocks).total,
            final(blocks).top_root == old(blocks).top_root,
            final(blocks).bottom_root == old(blocks).bottom_root,
            self.cursor is Bottom ==> *final(blocks) == *old(blocks),
            !(self.cursor is Bottom) ==> scroll_correction_post(
                *self,
                *old(blocks),
                *final(blocks),
                height as int,
                true,
            ),
    {
        if self.cursor.refers_to_bottom() {
            return ;
        }
        let pos = match blocks.find(BlockId::from_cursor(&self.cursor)) {
            Some(pos) => pos,
            None => {
                proof {
                    assert(false);
                }
                return ;
            },
        };
        proof {
            crate::blocks::lemma_total_height_bounds(blocks.blocks@);
            assert(0 <= total_height(
                blocks.blocks@.take(
                    find_index(blocks.blocks@, BlockId::spec_from_cursor(self.cursor)),
                ),
            ) <= blocks.total);
        }
        let so = scrolloff(height);
        let min_line = so - pos.focus_start;
        let max_line = height - pos.focus_end - so;
        let top_line = pos.top_line;
        let centered: i64 = if height >= pos.height {
            (height - pos.height) / 2
        } else {
            -((pos.height - height) / 2)
        };
        let a = if centered < max_line {
            centered
        } else {
            max_line
        };
        let new_top_line = if a > min_line {
            a
        } else {
            min_line
        };
        if new_top_line != top_line {
            blocks.offset(new_top_line - top_line);
        }
    }
}

impl Cursor {
    /// Whether the cursor is locked to the viewport bottom.
    pub fn refers_to_bottom(&self) -> (r: bool)
        ensures
            r == (*self is Bottom),
    {
        match self {
            Cursor::Bottom => true,
            _ => false,
        }
    }
}

/// Whether a block's rows, starting at this line, touch the band between the
/// two lines.
pub fn visible(pos: &BlockPos, first_line: i64, last_line: i64) -> (r: bool)
    requires
        -HEIGHT_MAX <= first_line <= HEIGHT_MAX,
        0 <= pos.height <= HEIGHT_MAX,
    ensures
        r == spec_visible_at(
            pos.height as int,
            pos.top_line as int,
            first_line as int,
            last_line as int,
        ),
{
    first_line + 1 - pos.height <= pos.top_line && pos.top_line <= last_line
}

/// The message behind a block, if the block renders one.
pub fn msg_id(id: &BlockId) -> (r: Option<u64>)
    ensures
        r == (match *id {
            BlockId::Msg(m) => Some(m),
            _ => None::<u64>,
        }),
{
    match id {
        BlockId::Msg(m) => Some(*m),
        _ => None,
    }
}

/// The first message block, from the top, whose rows touch the band.
fn find_visible_msg_forward(blocks: &TreeBlocks, first_line: i64, last_line: i64) -> (r: Option<
    u64,
>)
    requires
        blocks.wf(),
        -HEIGHT_MAX <= first_line <= HEIGHT_MAX,
        -LINE_LIMIT / 2 <= blocks.top_line <= LINE_LIMIT / 2,
    ensures
        r matches Some(id) ==> contains_block(blocks.blocks@, BlockId::Msg(id)),
        picked_first_visible(*blocks, first_line as int, last_line as int, r),
{
    let mut line: i64 = blocks.top_line;
    let mut i: usize = 0;
    proof {
        assert(blocks.blocks@.take(0) =~= Seq::<Block>::empty());
    }
    while i < blocks.blocks.len()
        invariant
            i <= blocks.blocks@.len(),
            blocks.wf(),
            -HEIGHT_MAX <= first_line <= HEIGHT_MAX,
            -LINE_LIMIT / 2 <= blocks.top_line <= LINE_LIMIT / 2,
            line == blocks.spec_line_of(i as int),
            forall|j: int|
                0 <= j < i ==> !msg_visible_at(*blocks, j, first_line as int, last_line as int),
        decreases blocks.blocks@.len() - i,
    {
        proof {
            crate::blocks::lemma_total_height_bounds(blocks.blocks@);
            crate::blocks::lemma_total_height_take(blocks.blocks@, i as int);
            assert(0 <= total_height(blocks.blocks@.take(i as int)) <= blocks.total);
            assert(0 <= total_height(blocks.blocks@.take(i as int + 1)) <= blocks.total);
        }
        let b = &blocks.blocks[i];
        if first_line + 1 - b.height <= line && line <= last_line {
            match b.id {
                BlockId::Msg(m) => {
                    proof {
                        assert(msg_visible_at(
                            *blocks,
                            i as int,
                            first_line as int,
                            last_line as int,
                        ));
                    }
                    return Some(m);
                },
                _ => {},
            }
        }
        proof {
            assert(!msg_visible_at(*blocks, i as int, first_line as int, last_line as int));
        }
        line = line + b.height;
        i = i + 1;
    }
    None
}

/// The first message block, from the bottom, whose rows touch the band.
fn find_visible_msg_backward(blocks: &TreeBlocks, first_line: i64, last_line: i64) -> (r: Option<
    u64,
>)
    requires
        blocks.wf(),
        -HEIGHT_MAX <= first_line <= HEIGHT_MAX,
        -LINE_LIMIT / 2 <= blocks.top_line <= LINE_LIMIT / 2,
    ensures
        r matches Some(id) ==> contains_block(blocks.blocks@, BlockId::Msg(id)),
        picked_last_visible(*blocks, first_line as int, last_line as int, r),
{
    let mut i: usize = blocks.blocks.len();
    proof {
        assert(blocks.blocks@.take(blocks.blocks@.len() as int) =~= blocks.blocks@);
    }
    let mut line: i64 = blocks.top_line + blocks.total;
    while i > 0
        invariant
            i <= blocks.blocks@.len(),
            blocks.wf(),
            -HEIGHT_MAX <= first_line <= HEIGHT_MAX,
            -LINE_LIMIT / 2 <= blocks.top_line <= LINE_LIMIT / 2,
            line == blocks.spec_line_of(i as int),
            forall|j: int|
                i <= j < blocks.blocks@.len() ==> !msg_visible_at(
                    *blocks,
                    j,
                    first_line as int,
                    last_line as int,
                ),
        decreases i,
    {
        proof {
            crate::blocks::lemma_total_height_bounds(blocks.blocks@);
            crate::blocks::lemma_total_height_take(blocks.blocks@, i as int - 1);
            assert(0 <= total_height(blocks.blocks@.take(i as int)) <= blocks.total);
            assert(0 <= total_height(blocks.blocks@.take(i as int - 1)) <= blocks.total);
        }
        i = i - 1;
        let b = &blocks.blocks[i];
        line = line - b.height;
        if first_line + 1 - b.height <= line && line <= last_line {
            match b.id {
                BlockId::Msg(m) => {
                    proof {
                        assert(msg_visible_at(
                            *blocks,
                            i as int,
                            first_line as int,
                            last_line as int,
                        ));
                    }
                    return Some(m);
                },
                _ => {},
            }
        }
        proof {
            assert(!msg_visible_at(*blocks, i as int, first_line as int, last_line as int));
        }
    }
    None
}

impl InnerTreeViewState {
    /// When the cursor sits outside the scrolloff band, moves it to the
    /// nearest rendered message inside the band, walking toward the cursor's
    /// side of the viewport. Only a bottom-locked or message cursor moves.
    pub fn move_cursor_so_it_is_visible(&mut self, height: i64, blocks: &TreeBlocks) -> (r: Option<
        u64,
    >)
        requires
            old(self).wf(),
            blocks.wf(),
            1 <= height <= HEIGHT_MAX,
            -LINE_LIMIT / 2 <= blocks.top_line <= LINE_LIMIT / 2,
            old(self).cursor matches Cursor::Msg(..) ==> contains_block(
                blocks.blocks@,
                BlockId::spec_from_cursor(old(self).cursor),
            ),
            msgs_in_store(old(self).store, blocks.blocks@),
        ensures
            final(self).wf(),
            final(self).store == old(self).store,
            final(self).last_cursor == old(self).last_cursor,
            final(self).last_cursor_line == old(self).last_cursor_line,
            final(self).last_visible_msgs == old(self).last_visible_msgs,
            final(self).correction == old(self).correction,
            final(self).scroll == old(self).scroll,
            final(self).folded == old(self).folded,
            final(self).editor_height == old(self).editor_height,
            final(self).editor_row == old(self).editor_row,
            r is None ==> final(self).cursor == old(self).cursor,
            r matches Some(id) ==> final(self).cursor == Cursor::Msg(id) && contains_block(
                blocks.blocks@,
                BlockId::Msg(id),
            ) && final(self).store.contains_msg(id),
            !(old(self).cursor is Bottom || old(self).cursor matches Cursor::Msg(..)) ==> r
                is None,
            move_cursor_post(*old(self), *blocks, height as int, r),
    {
        match self.cursor {
            Cursor::Bottom => {},
            Cursor::Msg(_) => {},
            _ => {
                return None;
            },
        }
        let so = scrolloff(height);
        let first_line = so;
        let last_line = height - 1 - so;
        let new_cursor: Option<u64> = if self.cursor.refers_to_bottom() {
            find_visible_msg_backward(blocks, first_line, last_line)
        } else {
            let pos = match blocks.find(BlockId::from_cursor(&self.cursor)) {
                Some(pos) => pos,
                None => {
                    proof {
                        assert(false);
                    }
                    return None;
                },
            };
            proof {
                let k = find_index(blocks.blocks@, BlockId::spec_from_cursor(self.cursor));
                assert(blocks.blocks@[k].wf());
            }
            if visible(&pos, first_line, last_line) {
                return None;
            } else if pos.top_line < first_line {
                find_visible_msg_forward(blocks, first_line, last_line)
            } else {
                find_visible_msg_backward(blocks, first_line, last_line)
            }
        };
        if let Some(id) = new_cursor {
            proof {
                assert(contains_block(blocks.blocks@, BlockId::Msg(id)));
                assert(self.store.contains_msg(id));
            }
            self.cursor = Cursor::Msg(id);
            Some(id)
        } else {
            None
        }
    }

    /// The ids of the message blocks whose rows touch the viewport, top to
    /// bottom.
    pub fn visible_msgs(height: i64, blocks: &TreeBlocks) -> (r: Vec<u64>)
        requires
            blocks.wf(),
            1 <= height <= HEIGHT_MAX,
            -LINE_LIMIT / 2 <= blocks.top_line <= LINE_LIMIT / 2,
        ensures
            r@ == visible_ids(blocks.blocks@, blocks.top_line as int, 0, height - 1),
    {
        let last_line = height - 1;
        let mut result: Vec<u64> = Vec::new();
        let mut line: i64 = blocks.top_line;
        let mut i: usize = 0;
        proof {
            assert(blocks.blocks@.skip(0) =~= blocks.blocks@);
            assert(blocks.blocks@.take(0) =~= Seq::<Block>::empty());
            assert(result@ + visible_ids(blocks.blocks@, blocks.top_line as int, 0, height - 1)
                =~= visible_ids(blocks.blocks@, blocks.top_line as int, 0, height - 1));
        }
        while i < blocks.blocks.len()
            invariant
                i <= blocks.blocks@.len(),
                blocks.wf(),
                1 <= height <= HEIGHT_MAX,
                -LINE_LIMIT / 2 <= blocks.top_line <= LINE_LIMIT / 2,
                last_line == height - 1,
                line == blocks.spec_line_of(i as int),
                result@ + visible_ids(
                    blocks.blocks@.skip(i as int),
                    line as int,
                    0,
                    height - 1,
                ) == visible_ids(blocks.blocks@, blocks.top_line as int, 0, height - 1),
            decreases blocks.blocks@.len() - i,
        {
            proof {
                crate::blocks::lemma_total_height_bounds(blocks.blocks@);
                crate::blocks::lemma_total_height_take(blocks.blocks@, i as int);
                assert(0 <= total_height(blocks.blocks@.take(i as int)) <= blocks.total);
                assert(0 <= total_height(blocks.blocks@.take(i as int + 1)) <= blocks.total);
                let rest = blocks.blocks@.skip(i as int);
                assert(rest[0] == blocks.blocks@[i as int]);
                assert(rest.drop_first() =~= blocks.blocks@.skip(i as int + 1));
            }
            let b = &blocks.blocks[i];
            if 0 + 1 - b.height <= line && line <= last_line {
                match b.id {
                    BlockId::Msg(m) => {
                        proof {
                            let rest = blocks.blocks@.skip(i as int);
                            let tail = visible_ids(
                                blocks.blocks@.skip(i as int + 1),
                                line + b.height,
                                0,
                                height - 1,
                            );
                            assert(visible_ids(rest, line as int, 0, height - 1) =~= seq![m]
                                + tail);
                            assert(result@.push(m) + tail =~= result@ + (seq![m] + tail));
                        }
                        result.push(m);
                    },
                    _ => {},
                }
            }
            line = line + b.height;
            i = i + 1;
        }
        proof {
            assert(blocks.blocks@.skip(i as int) =~= Seq::<Block>::empty());
            assert(result@ + Seq::<u64>::empty() =~= result@);
        }
        result
    }
}

impl InnerTreeViewState {
    /// One full layout pass: seed a screen around the previous cursor
    /// position, apply the pending scroll, cover the viewport, re-seed around
    /// the cursor if it fell off, apply the pending correction, and commit.
    /// The result always covers the viewport's last line, covers its first
    /// line unless the whole history is on screen, and holds the cursor's
    /// block; the remembered visible messages are exactly the rendered
    /// message blocks that touch the viewport.
    pub fn relayout(&mut self, height: i64) -> (r: TreeBlocks)
        requires
            old(self).wf(),
            1 <= height <= HEIGHT_MAX,
            cursor_valid(old(self).store, old(self).cursor),
            cursor_valid(old(self).store, old(self).last_cursor),
        ensures
            final(self).wf(),
            final(self).store == old(self).store,
            r.wf(),
            r.spec_end_line() - 1 >= height - 1,
            r.top_line <= 0 || at_history_start(final(self).store, r.top_root),
            contains_block(r.blocks@, BlockId::spec_from_cursor(final(self).cursor)),
            final(self).last_visible_msgs@ == visible_ids(
                r.blocks@,
                r.top_line as int,
                0,
                height - 1,
            ),
            final(self).scroll == 0,
            final(self).correction is None,
            final(self).last_cursor == final(self).cursor,
            final(self).cursor is Bottom ==> final(self).last_cursor_line == 0,
            !(final(self).cursor is Bottom) ==> final(self).last_cursor_line == r.spec_line_of(
                find_index(r.blocks@, BlockId::spec_from_cursor(final(self).cursor)),
            ),
            forall|x: u64| final(self).spec_folded(x) ==> old(self).spec_folded(x),
            !(old(self).correction == Some(Correction::MoveCursorToVisibleArea)) ==> final(self).cursor == old(self).cursor,
            (old(self).correction == Some(Correction::MakeCursorVisible) && !(old(self).cursor
                is Bottom)) ==> (exists|pre: TreeBlocks, post: TreeBlocks|
                correction_trace(*old(self), pre, post, r, height as int, false)),
            (old(self).correction == Some(Correction::CenterCursor) && !(old(self).cursor
                is Bottom)) ==> (exists|pre: TreeBlocks, post: TreeBlocks|
                correction_trace(*old(self), pre, post, r, height as int, true)),
            cursor_valid(final(self).store, final(self).cursor),
    {
        let last_cursor_path = self.cursor_path(&self.last_cursor);
        let cursor_path = self.cursor_path(&self.cursor);
        self.make_path_visible(&cursor_path);
        proof {
            assert forall|k: int| 0 <= k < cursor_path@.len() - 1 implies !self.spec_folded(
                #[trigger] cursor_path@[k],
            ) by {
                assert(cursor_path@.subrange(0, cursor_path@.len() - 1)[k] == cursor_path@[k]);
                assert(cursor_path@.subrange(0, cursor_path@.len() - 1).contains(cursor_path@[k]));
            }
        }
        let ghost after_unfold = *self;
        let mut blocks = self.layout_initial_seed(height, &last_cursor_path, &cursor_path);
        blocks.offset(self.scroll);
        self.fill_screen_and_clamp_scrolling(height, &mut blocks);
        if !self.contains_cursor(&blocks) {
            blocks = self.layout_cursor_seed(height, &last_cursor_path, &cursor_path);
            self.fill_screen_and_clamp_scrolling(height, &mut blocks);
        }
        match self.correction {
            Some(Correction::MakeCursorVisible) => {
                let ghost pre_corr = blocks;
                self.scroll_so_cursor_is_visible(height, &mut blocks);
                let ghost post_corr = blocks;
                self.fill_screen_and_clamp_scrolling(height, &mut blocks);
                proof {
                    if !(self.cursor is Bottom) {
                        assert(old(self).cursor == self.cursor);
                        assert(scroll_correction_post(
                            *old(self),
                            pre_corr,
                            post_corr,
                            height as int,
                            false,
                        ));
                        assert(correction_trace(
                            *old(self),
                            pre_corr,
                            post_corr,
                            blocks,
                            height as int,
                            false,
                        ));
                    }
                }
            },
            Some(Correction::MoveCursorToVisibleArea) => {
                let new_cursor_msg_id = self.move_cursor_so_it_is_visible(height, &blocks);
                if let Some(cursor_msg_id) = new_cursor_msg_id {
                    {
                        self.last_cursor = self.cursor;
                        self.last_cursor_line = self.cursor_line(&blocks);
                        self.last_visible_msgs = Self::visible_msgs(height, &blocks);
                        self.scroll = 0;
                        self.correction = None;
                        let last_cursor_path = self.store.path(cursor_msg_id);
                        let ghost before_second = *self;
                        self.make_path_visible(&last_cursor_path);
                        proof {
                            assert(before_second.folded == after_unfold.folded);
                            assert forall|x: u64| self.spec_folded(x) implies old(
                                self,
                            ).spec_folded(x) by {
                                if self.spec_folded(x) {
                                    assert(before_second.spec_folded(x));
                                    assert(after_unfold.spec_folded(x)) by {
                                        let k = choose|k: int|
                                            0 <= k < before_second.folded@.len()
                                                && before_second.folded@[k] == x;
                                        assert(after_unfold.folded@[k] == x);
                                    }
                                }
                            }
                            let t = choose|t: int|
                                0 <= t < self.store.trees@.len() && (
                                #[trigger] self.store.trees@[t]).id == last_cursor_path@[0]
                                    && path_in_node(
                                    self.store.trees@[t],
                                    cursor_msg_id,
                                    last_cursor_path@,
                                );
                            assert(self.store.has_root(last_cursor_path@[0]));
                        }
                        blocks = self.layout_last_cursor_seed(height, &last_cursor_path);
                        proof {
                            let t = choose|t: int|
                                0 <= t < self.store.trees@.len() && (
                                #[trigger] self.store.trees@[t]).id == last_cursor_path@[0]
                                    && path_in_node(
                                    self.store.trees@[t],
                                    cursor_msg_id,
                                    last_cursor_path@,
                                );
                            let ti = self.store.root_index(last_cursor_path@[0]);
                            assert(t == ti);
                            assert forall|k: int|
                                0 <= k < last_cursor_path@.len() - 1 implies !self.spec_folded(
                                #[trigger] last_cursor_path@[k],
                            ) by {
                                assert(last_cursor_path@.subrange(
                                    0,
                                    last_cursor_path@.len() - 1,
                                ).contains(last_cursor_path@[k])) by {
                                    assert(last_cursor_path@.subrange(
                                        0,
                                        last_cursor_path@.len() - 1,
                                    )[k] == last_cursor_path@[k]);
                                }
                            }
                            lemma_path_emitted(
                                *self,
                                self.store.trees@[ti],
                                cursor_msg_id,
                                last_cursor_path@,
                            );
                        }
                        self.fill_screen_and_clamp_scrolling(height, &mut blocks);
                    }
                }
            },
            Some(Correction::CenterCursor) => {
                let ghost pre_corr = blocks;
                self.scroll_so_cursor_is_centered(height, &mut blocks);
                let ghost post_corr = blocks;
                self.fill_screen_and_clamp_scrolling(height, &mut blocks);
                proof {
                    if !(self.cursor is Bottom) {
                        assert(old(self).cursor == self.cursor);
                        assert(scroll_correction_post(
                            *old(self),
                            pre_corr,
                            post_corr,
                            height as int,
                            true,
                        ));
                        assert(correction_trace(
                            *old(self),
                            pre_corr,
                            post_corr,
                            blocks,
                            height as int,
                            true,
                        ));
                    }
                }
            },
            None => {},
        }
        self.last_cursor = self.cursor;
        self.last_cursor_line = self.cursor_line(&blocks);
        self.last_visible_msgs = Self::visible_msgs(height, &blocks);
        self.scroll = 0;
        self.correction = None;
        blocks
    }
}

} // verus!
