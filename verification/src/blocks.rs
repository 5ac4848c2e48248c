//! Rendered blocks and the doubly extendable block list the layout engine
//! fills. A block's vertical position is its list offset from the list's top
//! line; the list can be prepended and appended whole tree layouts, shifted,
//! and re-anchored at a block.

use vstd::prelude::*;

verus! {

/// Tallest a single block may be.
pub const HEIGHT_MAX: i64 = 0x10000;

/// Tallest a whole block list may be.
pub const TOTAL_LIMIT: i64 = 0x40_0000_0000_0000;

/// Furthest a line may lie from the viewport; anchors handed in must stay
/// within half of it.
pub const LINE_LIMIT: i64 = 0x1000_0000_0000_0000;

/// What a block stands for: a message, the cursor (also the editor or a
/// pseudo-message being sent), or the zero-height ghost marking where the
/// cursor was on the previous pass.
#[derive(Clone, Copy, PartialEq, Eq, Structural, Debug, Hash)]
pub enum BlockId {
    Msg(u64),
    Cursor,
    LastCursor,
}

/// The root a block list starts or ends at: a tree of the store, or the
/// position below all trees.
#[derive(Clone, Copy, PartialEq, Eq, Structural, Debug, Hash)]
pub enum Root {
    Bottom,
    Tree(u64),
}

/// One rendered widget: its id, its height in lines, and the rows within it
/// that carry the cursor.
#[derive(Clone, Copy, PartialEq, Eq, Structural, Debug)]
pub struct Block {
    pub id: BlockId,
    pub height: i64,
    pub focus_start: i64,
    pub focus_end: i64,
}

impl Block {
    /// Heights are small and nonnegative; the focus rows lie inside the
    /// block.
    pub open spec fn wf(self) -> bool {
        &&& 0 <= self.height <= HEIGHT_MAX
        &&& 0 <= self.focus_start <= self.focus_end <= self.height
    }
}

/// The height of a block sequence, line by line.
pub open spec fn total_height(s: Seq<Block>) -> int
    decreases s,
{
    if s.len() == 0 {
        0int
    } else {
        s[0].height + total_height(s.drop_first())
    }
}

/// Whether some block carries the id.
pub open spec fn contains_block(s: Seq<Block>, id: BlockId) -> bool {
    exists|k: int| 0 <= k < s.len() && (#[trigger] s[k]).id == id
}

/// The first index carrying the id.
pub open spec fn find_index(s: Seq<Block>, id: BlockId) -> int
    decreases s,
{
    if s.len() == 0 {
        0int
    } else if s[0].id == id {
        0int
    } else {
        1 + find_index(s.drop_first(), id)
    }
}

/// Heights add up over concatenation.
pub proof fn lemma_total_height_concat(a: Seq<Block>, b: Seq<Block>)
    ensures
        total_height(a + b) == total_height(a) + total_height(b),
    decreases a.len(),
{
    if a.len() == 0 {
        assert(a + b =~= b);
    } else {
        assert((a + b).drop_first() =~= a.drop_first() + b);
        assert((a + b)[0] == a[0]);
        lemma_total_height_concat(a.drop_first(), b);
    }
}

/// The height of a prefix grows by one block's height at a time.
pub proof fn lemma_total_height_take(s: Seq<Block>, i: int)
    requires
        0 <= i < s.len(),
    ensures
        total_height(s.take(i + 1)) == total_height(s.take(i)) + s[i].height,
{
    assert(s.take(i + 1) =~= s.take(i) + seq![s[i]]);
    lemma_total_height_concat(s.take(i), seq![s[i]]);
    assert(total_height(seq![s[i]]) == s[i].height + total_height(seq![s[i]].drop_first()));
    assert(seq![s[i]].drop_first() =~= Seq::<Block>::empty());
}

/// A sequence of well-formed blocks has a nonnegative height, and every
/// prefix is at most the whole.
pub proof fn lemma_total_height_bounds(s: Seq<Block>)
    requires
        forall|k: int| 0 <= k < s.len() ==> (#[trigger] s[k]).wf(),
    ensures
        0 <= total_height(s),
        forall|i: int| 0 <= i <= s.len() ==> 0 <= total_height(#[trigger] s.take(i)) <= total_height(s),
    decreases s.len(),
{
    if s.len() == 0 {
        assert forall|i: int| 0 <= i <= s.len() implies 0 <= total_height(#[trigger] s.take(i))
            <= total_height(s) by {
            assert(s.take(i) =~= s);
        }
    } else {
        let rest = s.drop_first();
        assert(forall|k: int| 0 <= k < rest.len() ==> (#[trigger] rest[k]).wf());
        lemma_total_height_bounds(rest);
        assert forall|i: int| 0 <= i <= s.len() implies 0 <= total_height(#[trigger] s.take(i))
            <= total_height(s) by {
            if i == 0 {
                assert(s.take(0) =~= Seq::<Block>::empty());
            } else {
                assert(s.take(i)[0] == s[0]);
                assert(s.take(i).drop_first() =~= rest.take(i - 1));
                assert(0 <= total_height(rest.take(i - 1)) <= total_height(rest));
            }
        }
    }
}

/// An ordered list of blocks covering a contiguous band of lines, between a
/// top and a bottom root.
#[derive(Debug)]
pub struct TreeBlocks {
    pub top_root: Root,
    pub bottom_root: Root,
    pub top_line: i64,
    pub total: i64,
    pub blocks: Vec<Block>,
}

/// A found block's position: its first line, height and focus rows.
#[derive(Clone, Copy, PartialEq, Eq, Structural, Debug)]
pub struct BlockPos {
    pub top_line: i64,
    pub height: i64,
    pub focus_start: i64,
    pub focus_end: i64,
}

impl TreeBlocks {
    /// The cached total matches the blocks, every block is well formed, and
    /// the band stays far inside the line type's range.
    pub open spec fn wf(self) -> bool {
        &&& self.total == total_height(self.blocks@)
        &&& forall|k: int| 0 <= k < self.blocks@.len() ==> (#[trigger] self.blocks@[k]).wf()
        &&& 0 <= self.total <= TOTAL_LIMIT
        &&& -LINE_LIMIT <= self.top_line <= LINE_LIMIT
    }

    /// The first line of the block at this index.
    pub open spec fn spec_line_of(self, k: int) -> int {
        self.top_line + total_height(self.blocks@.take(k))
    }

    /// The line just after the list's last block.
    pub open spec fn spec_end_line(self) -> int {
        self.top_line + self.total
    }

    /// An empty list between the two roots, at line zero.
    pub fn new(top_root: Root, bottom_root: Root) -> (r: TreeBlocks)
        ensures
            r.wf(),
            r.top_root == top_root,
            r.bottom_root == bottom_root,
            r.top_line == 0,
            r.total == 0,
            r.blocks@.len() == 0,
    {
        TreeBlocks { top_root, bottom_root, top_line: 0, total: 0, blocks: Vec::new() }
    }

    /// Appends one block at the bottom.
    pub fn push_back(&mut self, b: Block)
        requires
            old(self).wf(),
            b.wf(),
            old(self).total + b.height <= TOTAL_LIMIT,
        ensures
            final(self).wf(),
            final(self).blocks@ == old(self).blocks@.push(b),
            final(self).top_line == old(self).top_line,
            final(self).total == old(self).total + b.height,
            final(self).top_root == old(self).top_root,
            final(self).bottom_root == old(self).bottom_root,
    {
        proof {
            lemma_total_height_concat(self.blocks@, seq![b]);
            assert(self.blocks@.push(b) =~= self.blocks@ + seq![b]);
            assert(total_height(seq![b]) == b.height + total_height(seq![b].drop_first()));
            assert(seq![b].drop_first() =~= Seq::<Block>::empty());
        }
        self.total = self.total + b.height;
        self.blocks.push(b);
    }

    /// Puts a whole list above this one; the top root becomes the other's.
    pub fn prepend(&mut self, other: TreeBlocks)
        requires
            old(self).wf(),
            other.wf(),
            old(self).total + other.total <= TOTAL_LIMIT,
            -LINE_LIMIT <= old(self).top_line - other.total,
        ensures
            final(self).wf(),
            final(self).blocks@ == other.blocks@ + old(self).blocks@,
            final(self).top_line == old(self).top_line - other.total,
            final(self).total == old(self).total + other.total,
            final(self).top_root == other.top_root,
            final(self).bottom_root == old(self).bottom_root,
    {
        proof {
            lemma_total_height_concat(other.blocks@, self.blocks@);
            lemma_total_height_bounds(other.blocks@);
            lemma_total_height_bounds(self.blocks@);
        }
        let mut v = other.blocks;
        v.append(&mut self.blocks);
        self.blocks = v;
        self.top_line = self.top_line - other.total;
        self.total = self.total + other.total;
        self.top_root = other.top_root;
    }

    /// Puts a whole list below this one; the bottom root becomes the other's.
    pub fn append(&mut self, other: TreeBlocks)
        requires
            old(self).wf(),
            other.wf(),
            old(self).total + other.total <= TOTAL_LIMIT,
        ensures
            final(self).wf(),
            final(self).blocks@ == old(self).blocks@ + other.blocks@,
            final(self).top_line == old(self).top_line,
            final(self).total == old(self).total + other.total,
            final(self).top_root == old(self).top_root,
            final(self).bottom_root == other.bottom_root,
    {
        proof {
            lemma_total_height_concat(self.blocks@, other.blocks@);
            lemma_total_height_bounds(other.blocks@);
            lemma_total_height_bounds(self.blocks@);
        }
        let mut v = other.blocks;
        self.blocks.append(&mut v);
        self.total = self.total + other.total;
        self.bottom_root = other.bottom_root;
    }

    /// Shifts every block by the same number of lines.
    pub fn offset(&mut self, delta: i64)
        requires
            old(self).wf(),
            -LINE_LIMIT <= old(self).top_line + delta <= LINE_LIMIT,
        ensures
            final(self).wf(),
            final(self).top_line == old(self).top_line + delta,
            final(self).blocks@ == old(self).blocks@,
            final(self).total == old(self).total,
            final(self).top_root == old(self).top_root,
            final(self).bottom_root == old(self).bottom_root,
    {
        self.top_line = self.top_line + delta;
    }

    /// Moves the whole list so its first block starts at this line.
    pub fn set_top_line(&mut self, line: i64)
        requires
            old(self).wf(),
            -LINE_LIMIT <= line <= LINE_LIMIT,
        ensures
            final(self).wf(),
            *final(self) == (TreeBlocks { top_line: line, ..*old(self) }),
    {
        self.top_line = line;
    }

    /// Moves the whole list so its last covered line is this line.
    pub fn set_bottom_line(&mut self, line: i64)
        requires
            old(self).wf(),
            -LINE_LIMIT <= line - old(self).total + 1,
            line - old(self).total + 1 <= LINE_LIMIT,
        ensures
            final(self).wf(),
            final(self).top_line == line - old(self).total + 1,
            final(self).blocks@ == old(self).blocks@,
            final(self).total == old(self).total,
            final(self).top_root == old(self).top_root,
            final(self).bottom_root == old(self).bottom_root,
    {
        proof {
            lemma_total_height_bounds(self.blocks@);
        }
        self.top_line = line - self.total + 1;
    }

    /// The line of the list's first block.
    pub fn top_line(&self) -> (r: i64)
        ensures
            r == self.top_line,
    {
        self.top_line
    }

    /// The last line the list covers; one below the top line when the list is
    /// empty.
    pub fn bottom_line(&self) -> (r: i64)
        requires
            self.wf(),
        ensures
            r == self.top_line + self.total - 1,
    {
        proof {
            lemma_total_height_bounds(self.blocks@);
        }
        self.top_line + self.total - 1
    }

    /// Finds the first block with this id and returns its position.
    pub fn find(&self, id: BlockId) -> (r: Option<BlockPos>)
        requires
            self.wf(),
        ensures
            r is Some <==> contains_block(self.blocks@, id),
            r matches Some(p) ==> {
                let k = find_index(self.blocks@, id);
                &&& 0 <= k < self.blocks@.len()
                &&& self.blocks@[k].id == id
                &&& p.top_line == self.spec_line_of(k)
                &&& p.height == self.blocks@[k].height
                &&& p.focus_start == self.blocks@[k].focus_start
                &&& p.focus_end == self.blocks@[k].focus_end
                &&& forall|j: int| 0 <= j < k ==> (#[trigger] self.blocks@[j]).id != id
            },
    {
        proof {
            lemma_total_height_bounds(self.blocks@);
        }
        let mut line: i64 = self.top_line;
        let mut i: usize = 0;
        while i < self.blocks.len()
            invariant
                i <= self.blocks@.len(),
                self.wf(),
                line == self.spec_line_of(i as int),
                forall|j: int| 0 <= j < i ==> (#[trigger] self.blocks@[j]).id != id,
            decreases self.blocks@.len() - i,
        {
            proof {
                lemma_total_height_bounds(self.blocks@);
                lemma_total_height_take(self.blocks@, i as int);
            }
            let b = &self.blocks[i];
            if b.id == id {
                proof {
                    lemma_find_index_first(self.blocks@, id, i as int);
                }
                return Some(
                    BlockPos {
                        top_line: line,
                        height: b.height,
                        focus_start: b.focus_start,
                        focus_end: b.focus_end,
                    },
                );
            }
            line = line + b.height;
            i = i + 1;
        }
        None
    }

    /// Moves the whole list so the first block with this id starts at the
    /// given line.
    pub fn recalculate_offsets(&mut self, id: BlockId, line: i64)
        requires
            old(self).wf(),
            contains_block(old(self).blocks@, id),
            -LINE_LIMIT / 2 <= line <= LINE_LIMIT / 2,
        ensures
            final(self).wf(),
            final(self).top_line == line - total_height(
                old(self).blocks@.take(find_index(old(self).blocks@, id)),
            ),
            final(self).blocks@ == old(self).blocks@,
            final(self).total == old(self).total,
            final(self).top_root == old(self).top_root,
            final(self).bottom_root == old(self).bottom_root,
    {
        proof {
            lemma_total_height_bounds(self.blocks@);
        }
        let mut prefix: i64 = 0;
        let mut i: usize = 0;
        while i < self.blocks.len()
            invariant
                i <= self.blocks@.len(),
                *self == *old(self),
                self.wf(),
                contains_block(self.blocks@, id),
                -LINE_LIMIT / 2 <= line <= LINE_LIMIT / 2,
                prefix == total_height(self.blocks@.take(i as int)),
                forall|j: int| 0 <= j < i ==> (#[trigger] self.blocks@[j]).id != id,
            decreases self.blocks@.len() - i,
        {
            proof {
                lemma_total_height_bounds(self.blocks@);
                lemma_total_height_take(self.blocks@, i as int);
            }
            if self.blocks[i].id == id {
                proof {
                    lemma_find_index_first(self.blocks@, id, i as int);
                    lemma_total_height_bounds(self.blocks@);
                    assert(0 <= total_height(self.blocks@.take(i as int)) <= self.total);
                }
                self.top_line = line - prefix;
                return ;
            }
            prefix = prefix + self.blocks[i].height;
            i = i + 1;
        }
        proof {
            assert(false);
        }
    }
}

/// A present id is found at a real index, which carries it.
pub proof fn lemma_find_index_bounds(s: Seq<Block>, id: BlockId)
    requires
        contains_block(s, id),
    ensures
        0 <= find_index(s, id) < s.len(),
        s[find_index(s, id)].id == id,
    decreases s.len(),
{
    if s.len() > 0 {
        if s[0].id == id {
        } else {
            let rest = s.drop_first();
            let k = choose|k: int| 0 <= k < s.len() && (#[trigger] s[k]).id == id;
            assert(rest[k - 1] == s[k]);
            lemma_find_index_bounds(rest, id);
        }
    }
}

/// When the blocks before `k` miss the id and `k` carries it, `k` is the
/// first index with the id.
pub proof fn lemma_find_index_first(s: Seq<Block>, id: BlockId, k: int)
    requires
        0 <= k < s.len(),
        s[k].id == id,
        forall|j: int| 0 <= j < k ==> (#[trigger] s[j]).id != id,
    ensures
        find_index(s, id) == k,
    decreases k,
{
    if k > 0 {
        let rest = s.drop_first();
        assert forall|j: int| 0 <= j < k - 1 implies (#[trigger] rest[j]).id != id by {
            assert(rest[j] == s[j + 1]);
        }
        assert(rest[k - 1] == s[k]);
        lemma_find_index_first(rest, id, k - 1);
    }
}

} // verus!
