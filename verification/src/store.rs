//! The message store the layout engine reads: an ordered forest of message
//! trees. Each node carries its id and the height of its rendered widget;
//! trees stand in timestamp order. The store is a deterministic in-memory
//! snapshot, consistent for the whole of one layout pass.

use vstd::prelude::*;

verus! {

/// Most messages a store may hold; keeps every line computation far inside
/// the line type's range.
pub const NODE_MAX: usize = 0x100_0000;

/// One message with its rendered height and its replies, in order.
#[derive(Debug)]
pub struct MsgNode {
    pub id: u64,
    pub height: u16,
    pub children: Vec<MsgNode>,
}

/// The sentinel id standing for the position just after the last possible
/// child of a parent; used by editor and pseudo-message paths.
pub const LAST_POSSIBLE_ID: u64 = 0xffff_ffff_ffff_ffff;

/// How many messages a subtree holds.
pub open spec fn node_count(n: MsgNode) -> nat
    decreases n,
{
    1 + nodes_count(n.children@)
}

/// How many messages a forest holds.
pub open spec fn nodes_count(s: Seq<MsgNode>) -> nat
    decreases s,
{
    if s.len() == 0 {
        0
    } else {
        node_count(s[0]) + nodes_count(s.drop_first())
    }
}

/// Every height is at least one line, ids stay below the sentinel.
pub open spec fn node_wf(n: MsgNode) -> bool
    decreases n,
{
    &&& n.height >= 1
    &&& n.id < LAST_POSSIBLE_ID
    &&& forall|i: int| 0 <= i < n.children@.len() ==> node_wf(#[trigger] n.children@[i])
}

/// Whether the subtree under `n` holds a message with this id.
pub open spec fn in_node(n: MsgNode, id: u64) -> bool
    decreases n,
{
    n.id == id || in_nodes(n.children@, id)
}

/// Whether some tree of the forest holds a message with this id.
pub open spec fn in_nodes(s: Seq<MsgNode>, id: u64) -> bool
    decreases s,
{
    if s.len() == 0 {
        false
    } else {
        in_node(s[0], id) || in_nodes(s.drop_first(), id)
    }
}

/// The ordered forest of message trees.
#[derive(Debug)]
pub struct MsgStore {
    pub trees: Vec<MsgNode>,
}

impl MsgStore {
    /// Trees are well formed, root ids are unique, and the store is small
    /// enough that every line computation stays in range.
    pub open spec fn wf(self) -> bool {
        &&& forall|i: int| 0 <= i < self.trees@.len() ==> node_wf(#[trigger] self.trees@[i])
        &&& forall|i: int, j: int|
            0 <= i < j < self.trees@.len() ==> (#[trigger] self.trees@[i]).id != (
            #[trigger] self.trees@[j]).id
        &&& nodes_count(self.trees@) <= NODE_MAX
    }

    /// Whether some tree of the store holds a message with this id.
    pub open spec fn contains_msg(self, id: u64) -> bool {
        in_nodes(self.trees@, id)
    }

    /// Whether a tree with this root id exists.
    pub open spec fn has_root(self, id: u64) -> bool {
        exists|i: int| 0 <= i < self.trees@.len() && (#[trigger] self.trees@[i]).id == id
    }

    /// The index of the tree with this root id.
    pub open spec fn root_index(self, id: u64) -> int {
        choose|i: int| 0 <= i < self.trees@.len() && (#[trigger] self.trees@[i]).id == id
    }

    /// The most recent tree's root id, if any tree exists.
    pub fn last_tree_id(&self) -> (r: Option<u64>)
        ensures
            self.trees@.len() == 0 ==> r is None,
            self.trees@.len() > 0 ==> r == Some(self.trees@[self.trees@.len() - 1].id),
    {
        if self.trees.len() == 0 {
            None
        } else {
            Some(self.trees[self.trees.len() - 1].id)
        }
    }

    /// The root id of the tree just before the one with this root id, if the
    /// given tree is not the oldest.
    pub fn prev_tree_id(&self, id: u64) -> (r: Option<u64>)
        requires
            self.wf(),
            self.has_root(id),
        ensures
            self.root_index(id) == 0 ==> r is None,
            self.root_index(id) > 0 ==> r == Some(self.trees@[self.root_index(id) - 1].id),
    {
        let mut i: usize = 0;
        while i < self.trees.len()
            invariant
                i <= self.trees@.len(),
                self.wf(),
                self.has_root(id),
                forall|j: int| 0 <= j < i ==> (#[trigger] self.trees@[j]).id != id,
            decreases self.trees@.len() - i,
        {
            if self.trees[i].id == id {
                proof {
                    let k = self.root_index(id);
                    assert(self.trees@[i as int].id == id);
                    assert(k == i as int);
                }
                if i == 0 {
                    return None;
                }
                return Some(self.trees[i - 1].id);
            }
            i = i + 1;
        }
        proof {
            assert(false);
        }
        None
    }

    /// The root id of the tree just after the one with this root id, if the
    /// given tree is not the newest.
    pub fn next_tree_id(&self, id: u64) -> (r: Option<u64>)
        requires
            self.wf(),
            self.has_root(id),
        ensures
            self.root_index(id) == self.trees@.len() - 1 ==> r is None,
            self.root_index(id) < self.trees@.len() - 1 ==> r == Some(
                self.trees@[self.root_index(id) + 1].id,
            ),
    {
        let mut i: usize = 0;
        while i < self.trees.len()
            invariant
                i <= self.trees@.len(),
                self.wf(),
                self.has_root(id),
                forall|j: int| 0 <= j < i ==> (#[trigger] self.trees@[j]).id != id,
            decreases self.trees@.len() - i,
        {
            if self.trees[i].id == id {
                proof {
                    let k = self.root_index(id);
                    assert(self.trees@[i as int].id == id);
                    assert(k == i as int);
                }
                if i + 1 == self.trees.len() {
                    return None;
                }
                return Some(self.trees[i + 1].id);
            }
            i = i + 1;
        }
        proof {
            assert(false);
        }
        None
    }

    /// The tree with this root id.
    pub fn tree(&self, id: u64) -> (r: &MsgNode)
        requires
            self.wf(),
            self.has_root(id),
        ensures
            *r == self.trees@[self.root_index(id)],
            r.id == id,
    {
        let mut i: usize = 0;
        while i < self.trees.len()
            invariant
                i <= self.trees@.len(),
                self.wf(),
                self.has_root(id),
                forall|j: int| 0 <= j < i ==> (#[trigger] self.trees@[j]).id != id,
            decreases self.trees@.len() - i,
        {
            if self.trees[i].id == id {
                proof {
                    let k = self.root_index(id);
                    assert(self.trees@[i as int].id == id);
                    assert(k == i as int);
                }
                return &self.trees[i];
            }
            i = i + 1;
        }
        proof {
            assert(false);
        }
        &self.trees[0]
    }
}

/// Whether the subtree holds a message with this id.
pub fn node_contains(n: &MsgNode, id: u64) -> (r: bool)
    ensures
        r == in_node(*n, id),
    decreases *n,
{
    if n.id == id {
        return true;
    }
    let mut i: usize = 0;
    while i < n.children.len()
        invariant
            i <= n.children@.len(),
            !in_nodes(n.children@.take(i as int), id),
        decreases n.children@.len() - i,
    {
        if node_contains(&n.children[i], id) {
            proof {
                lemma_in_nodes_member(n.children@, i as int, id);
            }
            return true;
        }
        proof {
            assert(n.children@.take(i as int + 1).drop_last() =~= n.children@.take(i as int));
            assert(n.children@.take(i as int + 1).last() == n.children@[i as int]);
            lemma_in_nodes_split_last(n.children@.take(i as int + 1), id);
        }
        i = i + 1;
    }
    proof {
        assert(n.children@.take(n.children@.len() as int) =~= n.children@);
    }
    false
}

impl MsgStore {
    /// Whether some tree of the store holds a message with this id.
    pub fn contains(&self, id: u64) -> (r: bool)
        ensures
            r == self.contains_msg(id),
    {
        let mut i: usize = 0;
        while i < self.trees.len()
            invariant
                i <= self.trees@.len(),
                !in_nodes(self.trees@.take(i as int), id),
            decreases self.trees@.len() - i,
        {
            if node_contains(&self.trees[i], id) {
                proof {
                    lemma_in_nodes_member(self.trees@, i as int, id);
                }
                return true;
            }
            proof {
                assert(self.trees@.take(i as int + 1).drop_last() =~= self.trees@.take(i as int));
                assert(self.trees@.take(i as int + 1).last() == self.trees@[i as int]);
                lemma_in_nodes_split_last(self.trees@.take(i as int + 1), id);
            }
            i = i + 1;
        }
        proof {
            assert(self.trees@.take(self.trees@.len() as int) =~= self.trees@);
        }
        false
    }

    /// The id path from a tree's root down to the message.
    pub fn path(&self, id: u64) -> (r: Vec<u64>)
        requires
            self.wf(),
            self.contains_msg(id),
        ensures
            r@.len() >= 1,
            exists|t: int|
                0 <= t < self.trees@.len() && (#[trigger] self.trees@[t]).id == r@[0]
                    && path_in_node(self.trees@[t], id, r@),
    {
        let mut i: usize = 0;
        while i < self.trees.len()
            invariant
                i <= self.trees@.len(),
                self.wf(),
                self.contains_msg(id),
                !in_nodes(self.trees@.take(i as int), id),
            decreases self.trees@.len() - i,
        {
            if let Some(p) = node_path(&self.trees[i], id) {
                proof {
                    assert(p@[0] == self.trees@[i as int].id);
                }
                return p;
            }
            proof {
                assert(self.trees@.take(i as int + 1).drop_last() =~= self.trees@.take(i as int));
                assert(self.trees@.take(i as int + 1).last() == self.trees@[i as int]);
                lemma_in_nodes_split_last(self.trees@.take(i as int + 1), id);
            }
            i = i + 1;
        }
        proof {
            assert(self.trees@.take(self.trees@.len() as int) =~= self.trees@);
            assert(false);
        }
        Vec::new()
    }
}

/// Whether `p` is the id path from `n`'s root down to the message `target`
/// inside `n`'s subtree.
pub open spec fn path_in_node(n: MsgNode, target: u64, p: Seq<u64>) -> bool
    decreases n,
{
    &&& p.len() >= 1
    &&& p[0] == n.id
    &&& if p.len() == 1 {
        target == n.id
    } else {
        exists|i: int|
            0 <= i < n.children@.len() && path_in_node(
                #[trigger] n.children@[i],
                target,
                p.drop_first(),
            )
    }
}

/// Looks for the message in the subtree and returns the id path from the
/// root down to it.
pub fn node_path(n: &MsgNode, target: u64) -> (r: Option<Vec<u64>>)
    ensures
        in_node(*n, target) <==> r is Some,
        r matches Some(p) ==> path_in_node(*n, target, p@),
    decreases *n,
{
    if n.id == target {
        let mut p: Vec<u64> = Vec::new();
        p.push(n.id);
        return Some(p);
    }
    let mut i: usize = 0;
    while i < n.children.len()
        invariant
            i <= n.children@.len(),
            !in_nodes(n.children@.take(i as int), target),
        decreases n.children@.len() - i,
    {
        proof {
            lemma_in_nodes_take(n.children@, i as int, target);
        }
        if let Some(sub) = node_path(&n.children[i], target) {
            let mut p: Vec<u64> = Vec::new();
            p.push(n.id);
            let mut k: usize = 0;
            while k < sub.len()
                invariant
                    k <= sub@.len(),
                    p@ == seq![n.id] + sub@.take(k as int),
                decreases sub@.len() - k,
            {
                p.push(sub[k]);
                proof {
                    assert(p@ =~= seq![n.id] + sub@.take(k as int + 1));
                }
                k = k + 1;
            }
            proof {
                assert(sub@.take(sub@.len() as int) =~= sub@);
                assert(p@.drop_first() =~= sub@);
                assert(in_node(n.children@[i as int], target));
                lemma_in_nodes_member(n.children@, i as int, target);
            }
            return Some(p);
        }
        proof {
            assert(n.children@.take(i as int + 1).drop_last() =~= n.children@.take(i as int));
            assert(n.children@.take(i as int + 1).last() == n.children@[i as int]);
            lemma_in_nodes_split_last(n.children@.take(i as int + 1), target);
        }
        i = i + 1;
    }
    proof {
        assert(n.children@.take(n.children@.len() as int) =~= n.children@);
    }
    None
}

/// Membership in a prefix of a forest implies membership in the forest.
pub proof fn lemma_in_nodes_take(s: Seq<MsgNode>, i: int, id: u64)
    requires
        0 <= i < s.len(),
    ensures
        in_nodes(s, id) <== (in_nodes(s.take(i), id) || in_node(s[i], id)),
    decreases s.len(),
{
    if s.len() > 0 {
        if i == 0 {
        } else {
            assert(s.take(i).drop_first() =~= s.drop_first().take(i - 1));
            assert(s.drop_first()[i - 1] == s[i]);
            lemma_in_nodes_take(s.drop_first(), i - 1, id);
        }
    }
}

/// Membership in one tree implies membership in the whole forest.
pub proof fn lemma_in_nodes_member(s: Seq<MsgNode>, i: int, id: u64)
    requires
        0 <= i < s.len(),
        in_node(s[i], id),
    ensures
        in_nodes(s, id),
    decreases s.len(),
{
    if i > 0 {
        assert(s.drop_first()[i - 1] == s[i]);
        lemma_in_nodes_member(s.drop_first(), i - 1, id);
    }
}

/// Membership in a forest splits into the last tree and the rest.
pub proof fn lemma_in_nodes_split_last(s: Seq<MsgNode>, id: u64)
    requires
        s.len() >= 1,
    ensures
        in_nodes(s, id) <==> (in_nodes(s.drop_last(), id) || in_node(s.last(), id)),
    decreases s.len(),
{
    if s.len() == 1 {
        assert(s.drop_last() =~= Seq::<MsgNode>::empty());
        assert(s.last() == s[0]);
        assert(in_nodes(s, id) == (in_node(s[0], id) || in_nodes(s.drop_first(), id)));
        assert(s.drop_first() =~= Seq::<MsgNode>::empty());
    } else {
        assert(s.drop_first().drop_last() =~= s.drop_last().drop_first());
        assert(s.drop_first().last() == s.last());
        assert(s.drop_last()[0] == s[0]);
        lemma_in_nodes_split_last(s.drop_first(), id);
        assert(in_nodes(s, id) == (in_node(s[0], id) || in_nodes(s.drop_first(), id)));
        assert(s.drop_last().len() >= 1);
        assert(in_nodes(s.drop_last(), id) == (in_node(s.drop_last()[0], id) || in_nodes(
            s.drop_last().drop_first(),
            id,
        )));
    }
}

} // verus!
