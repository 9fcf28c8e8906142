//! A keyed hierarchy assembled from flat records.
//!
//! Items carry a key (unique over the whole tree), the key of their intended
//! parent, and an order value that decides placement among siblings.  The tree
//! grows by `append`: the first item becomes the root, every later item is
//! attached under the node whose key equals the item's parent key.  Appends
//! that would duplicate a key or name an absent parent fail and leave the
//! tree untouched.
use vstd::prelude::*;

verus! {

/// Capabilities an item must offer so the tree can place it: a key, the key
/// of the intended parent, and an order value used only to position siblings.
pub trait TreeNodeLike: Sized {
    /// The item's key, as seen by specifications.
    spec fn spec_key(&self) -> u64;

    /// The declared parent's key, as seen by specifications.
    spec fn spec_parent(&self) -> u64;

    /// The sibling-order value, as seen by specifications.
    spec fn spec_order(&self) -> i64;

    /// The item's unique key.
    fn key(&self) -> (k: u64)
        ensures
            k == self.spec_key(),
    ;

    /// The key of the node this item wants as its parent.
    fn parent(&self) -> (p: u64)
        ensures
            p == self.spec_parent(),
    ;

    /// The order value deciding placement among siblings.
    fn order(&self) -> (o: i64)
        ensures
            o == self.spec_order(),
    ;
}

/// The mathematical shape of a node: its item and the models of its children,
/// in sibling order.
#[verifier::ext_equal]
pub struct NodeModel<Item> {
    pub item: Item,
    pub kids: Seq<NodeModel<Item>>,
}

impl<Item: TreeNodeLike> NodeModel<Item> {
    /// A node holding `item` and no children.
    pub open spec fn leaf(item: Item) -> Self {
        NodeModel { item, kids: Seq::empty() }
    }

    /// How many nodes in this subtree carry key `k`.
    pub open spec fn key_count(self, k: u64) -> nat
        decreases self,
    {
        let here: nat = if self.item.spec_key() == k {
            1nat
        } else {
            0nat
        };
        here + Self::key_count_seq(self.kids, k)
    }

    /// How many nodes among the subtrees of `s` carry key `k`.
    pub open spec fn key_count_seq(s: Seq<Self>, k: u64) -> nat
        decreases s,
    {
        if s.len() == 0 {
            0nat
        } else {
            s[0].key_count(k) + Self::key_count_seq(s.subrange(1, s.len() as int), k)
        }
    }

    /// The first subtree (depth first, in sibling order) whose root key is `k`.
    pub open spec fn subtree_at(self, k: u64) -> Option<Self>
        decreases self,
    {
        if self.item.spec_key() == k {
            Some(self)
        } else {
            Self::subtree_at_seq(self.kids, k)
        }
    }

    /// `subtree_at` over a sequence of sibling subtrees, first match wins.
    pub open spec fn subtree_at_seq(s: Seq<Self>, k: u64) -> Option<Self>
        decreases s,
    {
        if s.len() == 0 {
            None
        } else {
            match s[0].subtree_at(k) {
                Some(n) => Some(n),
                None => Self::subtree_at_seq(s.subrange(1, s.len() as int), k),
            }
        }
    }

    /// Whether some node of this subtree carries key `k`.
    pub open spec fn has_key(self, k: u64) -> bool {
        self.subtree_at(k) is Some
    }

    /// The number of nodes in this subtree.
    pub open spec fn size(self) -> nat
        decreases self,
    {
        1 + Self::size_seq(self.kids)
    }

    /// The total number of nodes in a sequence of sibling subtrees.
    pub open spec fn size_seq(s: Seq<Self>) -> nat
        decreases s,
    {
        if s.len() == 0 {
            0nat
        } else {
            s[0].size() + Self::size_seq(s.subrange(1, s.len() as int))
        }
    }

    /// Sibling order values never decrease from left to right.
    pub open spec fn kids_sorted(s: Seq<Self>) -> bool {
        forall|i: int, j: int|
            0 <= i <= j < s.len() ==> #[trigger] s[i].item.spec_order() <= #[trigger] s[
                j
            ].item.spec_order()
    }

    /// Well-formed subtree: children sorted by order, every child names this
    /// node as its parent, children well-formed, and no key occurs twice.
    pub open spec fn wf(self) -> bool
        decreases self,
    {
        &&& Self::kids_sorted(self.kids)
        &&& forall|i: int|
            0 <= i < self.kids.len() ==> (#[trigger] self.kids[i]).item.spec_parent()
                == self.item.spec_key()
        &&& forall|i: int| 0 <= i < self.kids.len() ==> (#[trigger] self.kids[i]).wf()
        &&& forall|k: u64| self.key_count(k) <= 1
    }

    /// Where a new sibling of order `o` lands: right after the block of
    /// existing siblings whose order is at most `o`.
    pub open spec fn insert_pos(s: Seq<Self>, o: i64) -> int
        decreases s.len(),
    {
        if s.len() == 0 {
            0
        } else if s[0].item.spec_order() <= o {
            1 + Self::insert_pos(s.subrange(1, s.len() as int), o)
        } else {
            0
        }
    }

    /// The sibling sequence after inserting a leaf for `item` at its position.
    pub open spec fn insert_kid(s: Seq<Self>, item: Item) -> Seq<Self> {
        s.insert(Self::insert_pos(s, item.spec_order()), Self::leaf(item))
    }

    /// The subtree after attaching `item` under the first node whose key
    /// equals `item`'s parent key (self first, then children depth first).
    pub open spec fn spec_append(self, item: Item) -> Self
        decreases self,
    {
        if self.item.spec_key() == item.spec_parent() {
            NodeModel { item: self.item, kids: Self::insert_kid(self.kids, item) }
        } else {
            NodeModel { item: self.item, kids: Self::append_seq(self.kids, item) }
        }
    }

    /// `spec_append` over sibling subtrees: the first subtree containing the
    /// parent key receives the item, the others are untouched.
    pub open spec fn append_seq(s: Seq<Self>, item: Item) -> Seq<Self>
        decreases s,
    {
        if s.len() == 0 {
            s
        } else if s[0].has_key(item.spec_parent()) {
            seq![s[0].spec_append(item)] + s.subrange(1, s.len() as int)
        } else {
            seq![s[0]] + Self::append_seq(s.subrange(1, s.len() as int), item)
        }
    }
}

impl<Item: TreeNodeLike> NodeModel<Item> {
    /// A subtree's node count is part of its siblings' total.
    pub proof fn lemma_size_seq_index(s: Seq<Self>, i: int)
        requires
            0 <= i < s.len(),
        ensures
            s[i].size() <= Self::size_seq(s),
        decreases i,
    {
        if i > 0 {
            Self::lemma_size_seq_index(s.subrange(1, s.len() as int), i - 1);
            assert(s.subrange(1, s.len() as int)[i - 1] == s[i]);
        }
    }

    /// A subtree's key count is part of its siblings' total.
    pub proof fn lemma_key_count_seq_index(s: Seq<Self>, k: u64, i: int)
        requires
            0 <= i < s.len(),
        ensures
            s[i].key_count(k) <= Self::key_count_seq(s, k),
        decreases i,
    {
        if i > 0 {
            Self::lemma_key_count_seq_index(s.subrange(1, s.len() as int), k, i - 1);
            assert(s.subrange(1, s.len() as int)[i - 1] == s[i]);
        }
    }

    /// A located subtree is rooted at the queried key, and a subtree is
    /// located exactly when the key occurs.
    pub proof fn lemma_subtree_at_key(m: Self, k: u64)
        ensures
            m.subtree_at(k) matches Some(n) ==> n.item.spec_key() == k,
            m.subtree_at(k) is Some <==> m.key_count(k) > 0,
        decreases m,
    {
        if m.item.spec_key() != k {
            Self::lemma_subtree_at_seq_key(m.kids, k);
        }
    }

    /// `lemma_subtree_at_key`, for a sequence of sibling subtrees.
    pub proof fn lemma_subtree_at_seq_key(s: Seq<Self>, k: u64)
        ensures
            Self::subtree_at_seq(s, k) matches Some(n) ==> n.item.spec_key() == k,
            Self::subtree_at_seq(s, k) is Some <==> Self::key_count_seq(s, k) > 0,
        decreases s,
    {
        if s.len() > 0 {
            Self::lemma_subtree_at_key(s[0], k);
            Self::lemma_subtree_at_seq_key(s.subrange(1, s.len() as int), k);
        }
    }

    /// When the siblings before `i` lack key `k` and sibling `i` has it,
    /// the search resolves at sibling `i`.
    pub proof fn lemma_subtree_at_seq_at(s: Seq<Self>, k: u64, i: int)
        requires
            0 <= i < s.len(),
            forall|j: int| 0 <= j < i ==> !(#[trigger] s[j]).has_key(k),
            s[i].has_key(k),
        ensures
            Self::subtree_at_seq(s, k) == s[i].subtree_at(k),
        decreases i,
    {
        if i > 0 {
            let t = s.subrange(1, s.len() as int);
            assert(forall|j: int| 0 <= j < i - 1 ==> t[j] == s[j + 1]);
            assert(t[i - 1] == s[i]);
            Self::lemma_subtree_at_seq_at(t, k, i - 1);
        }
    }

    /// When no sibling subtree has key `k`, the search fails.
    pub proof fn lemma_subtree_at_seq_none(s: Seq<Self>, k: u64)
        requires
            forall|j: int| 0 <= j < s.len() ==> !(#[trigger] s[j]).has_key(k),
        ensures
            Self::subtree_at_seq(s, k) is None,
        decreases s,
    {
        if s.len() > 0 {
            let t = s.subrange(1, s.len() as int);
            assert(forall|j: int| 0 <= j < t.len() ==> t[j] == s[j + 1]);
            Self::lemma_subtree_at_seq_none(t, k);
        }
    }

    /// `insert_pos` is the length of the leading block of orders at most `o`.
    pub proof fn lemma_insert_pos_bounds(s: Seq<Self>, o: i64)
        ensures
            0 <= Self::insert_pos(s, o) <= s.len(),
            forall|j: int|
                0 <= j < Self::insert_pos(s, o) ==> (#[trigger] s[j]).item.spec_order() <= o,
            Self::insert_pos(s, o) < s.len() ==> s[Self::insert_pos(s, o)].item.spec_order() > o,
        decreases s.len(),
    {
        if s.len() > 0 && s[0].item.spec_order() <= o {
            let t = s.subrange(1, s.len() as int);
            Self::lemma_insert_pos_bounds(t, o);
            assert(forall|j: int| 0 <= j < t.len() ==> t[j] == s[j + 1]);
            assert forall|j: int| 0 <= j < Self::insert_pos(s, o) implies (#[trigger] s[
                j
            ]).item.spec_order() <= o by {
                if j > 0 {
                    assert(t[j - 1] == s[j]);
                }
            }
        }
    }

    /// Any index characterised as "everything before is at most `o`, the
    /// next is above `o`" is `insert_pos`.
    pub proof fn lemma_insert_pos_char(s: Seq<Self>, o: i64, p: int)
        requires
            0 <= p <= s.len(),
            forall|j: int| 0 <= j < p ==> (#[trigger] s[j]).item.spec_order() <= o,
            p < s.len() ==> s[p].item.spec_order() > o,
        ensures
            Self::insert_pos(s, o) == p,
        decreases p,
    {
        if p > 0 {
            let t = s.subrange(1, s.len() as int);
            assert(forall|j: int| 0 <= j < t.len() ==> t[j] == s[j + 1]);
            Self::lemma_insert_pos_char(t, o, p - 1);
        }
    }

    /// Inserting a new sibling at its position keeps the orders sorted.
    pub proof fn lemma_insert_kid_sorted(s: Seq<Self>, item: Item)
        requires
            Self::kids_sorted(s),
        ensures
            Self::kids_sorted(Self::insert_kid(s, item)),
    {
        let o = item.spec_order();
        let p = Self::insert_pos(s, o);
        Self::lemma_insert_pos_bounds(s, o);
        let t = Self::insert_kid(s, item);
        assert forall|i: int, j: int|
            0 <= i <= j < t.len() implies #[trigger] t[i].item.spec_order() <= #[trigger] t[
            j
        ].item.spec_order() by {
            if i < p {
                assert(t[i] == s[i]);
            }
            if j < p {
                assert(t[j] == s[j]);
            }
            if i > p {
                assert(t[i] == s[i - 1]);
            }
            if j > p {
                assert(t[j] == s[j - 1]);
            }
        }
    }

    /// Inserting a subtree among siblings adds its key counts to the total.
    pub proof fn lemma_key_count_seq_insert(s: Seq<Self>, p: int, x: Self, k: u64)
        requires
            0 <= p <= s.len(),
        ensures
            Self::key_count_seq(s.insert(p, x), k) == Self::key_count_seq(s, k) + x.key_count(k),
        decreases p,
    {
        let t = s.insert(p, x);
        if p == 0 {
            assert(t[0] == x);
            assert(t.subrange(1, t.len() as int) =~= s);
        } else {
            assert(t[0] == s[0]);
            assert(t.subrange(1, t.len() as int) =~= s.subrange(1, s.len() as int).insert(
                p - 1,
                x,
            ));
            Self::lemma_key_count_seq_insert(s.subrange(1, s.len() as int), p - 1, x, k);
        }
    }

    /// A leaf counts exactly its own key.
    pub proof fn lemma_leaf_key_count(item: Item, k: u64)
        ensures
            Self::leaf(item).key_count(k) == if k == item.spec_key() {
                1nat
            } else {
                0nat
            },
            Self::leaf(item).wf(),
    {
        assert forall|k2: u64| Self::leaf(item).key_count(k2) <= 1 by {
            assert(Self::key_count_seq(Self::leaf(item).kids, k2) == 0);
        }
        assert(Self::key_count_seq(Self::leaf(item).kids, k) == 0);
    }

    /// Attaching an item under a well-formed subtree that contains the
    /// parent key but not the item's key keeps the subtree well-formed and
    /// raises exactly the item's key count by one.
    pub proof fn lemma_spec_append_wf(m: Self, item: Item)
        requires
            m.wf(),
            m.key_count(item.spec_key()) == 0,
            m.has_key(item.spec_parent()),
        ensures
            m.spec_append(item).wf(),
            m.spec_append(item).item == m.item,
            forall|k: u64|
                #[trigger] m.spec_append(item).key_count(k) == m.key_count(k) + if k
                    == item.spec_key() {
                    1nat
                } else {
                    0nat
                },
        decreases m,
    {
        let t = m.spec_append(item);
        if m.item.spec_key() == item.spec_parent() {
            let o = item.spec_order();
            let p = Self::insert_pos(m.kids, o);
            Self::lemma_insert_pos_bounds(m.kids, o);
            Self::lemma_insert_kid_sorted(m.kids, item);
            Self::lemma_leaf_key_count(item, item.spec_key());
            assert forall|k: u64|
                #[trigger] t.key_count(k) == m.key_count(k) + if k == item.spec_key() {
                    1nat
                } else {
                    0nat
                } by {
                Self::lemma_key_count_seq_insert(m.kids, p, Self::leaf(item), k);
                Self::lemma_leaf_key_count(item, k);
            }
            assert forall|i: int| 0 <= i < t.kids.len() implies (#[trigger] t.kids[i]).wf()
                && t.kids[i].item.spec_parent() == t.item.spec_key() by {
                if i < p {
                    assert(t.kids[i] == m.kids[i]);
                } else if i == p {
                    Self::lemma_leaf_key_count(item, item.spec_key());
                } else {
                    assert(t.kids[i] == m.kids[i - 1]);
                }
            }
        } else {
            Self::lemma_subtree_at_key(m, item.spec_parent());
            Self::lemma_subtree_at_seq_key(m.kids, item.spec_parent());
            Self::lemma_append_seq_wf(m.kids, item);
            assert forall|k: u64|
                #[trigger] t.key_count(k) == m.key_count(k) + if k == item.spec_key() {
                    1nat
                } else {
                    0nat
                } by {
                assert(t.key_count(k) == (if m.item.spec_key() == k {
                    1nat
                } else {
                    0nat
                }) + Self::key_count_seq(t.kids, k));
            }
        }
    }

    /// `lemma_spec_append_wf` for a sequence of sibling subtrees: the first
    /// subtree containing the parent key absorbs the item, every root item
    /// stays in place, and only the item's key count grows.
    pub proof fn lemma_append_seq_wf(s: Seq<Self>, item: Item)
        requires
            forall|i: int| 0 <= i < s.len() ==> (#[trigger] s[i]).wf(),
            Self::key_count_seq(s, item.spec_key()) == 0,
            Self::key_count_seq(s, item.spec_parent()) > 0,
        ensures
            Self::append_seq(s, item).len() == s.len(),
            forall|i: int| 0 <= i < s.len() ==> (#[trigger] Self::append_seq(s, item)[i]).item
                == s[i].item,
            forall|i: int| 0 <= i < s.len() ==> (#[trigger] Self::append_seq(s, item)[i]).wf(),
            forall|k: u64|
                #[trigger] Self::key_count_seq(Self::append_seq(s, item), k)
                    == Self::key_count_seq(s, k) + if k == item.spec_key() {
                    1nat
                } else {
                    0nat
                },
        decreases s,
    {
        let t = Self::append_seq(s, item);
        let rest = s.subrange(1, s.len() as int);
        assert(s.len() > 0);
        Self::lemma_subtree_at_key(s[0], item.spec_parent());
        if s[0].has_key(item.spec_parent()) {
            assert(s[0].key_count(item.spec_key()) == 0);
            Self::lemma_spec_append_wf(s[0], item);
            assert(t[0] == s[0].spec_append(item));
            assert(t.subrange(1, t.len() as int) =~= rest);
            assert(forall|i: int| 1 <= i < s.len() ==> t[i] == s[i]);
            assert forall|k: u64|
                #[trigger] Self::key_count_seq(t, k) == Self::key_count_seq(s, k) + if k
                    == item.spec_key() {
                    1nat
                } else {
                    0nat
                } by {
                assert(Self::key_count_seq(t, k) == t[0].key_count(k) + Self::key_count_seq(
                    rest,
                    k,
                ));
            }
        } else {
            assert(s[0].key_count(item.spec_parent()) == 0);
            assert(Self::key_count_seq(rest, item.spec_parent()) > 0);
            assert(Self::key_count_seq(rest, item.spec_key()) == 0);
            assert(forall|i: int| 0 <= i < rest.len() ==> rest[i] == s[i + 1]);
            Self::lemma_append_seq_wf(rest, item);
            assert(t[0] == s[0]);
            assert(t.subrange(1, t.len() as int) =~= Self::append_seq(rest, item));
            assert forall|k: u64|
                #[trigger] Self::key_count_seq(t, k) == Self::key_count_seq(s, k) + if k
                    == item.spec_key() {
                    1nat
                } else {
                    0nat
                } by {
                assert(Self::key_count_seq(t, k) == t[0].key_count(k) + Self::key_count_seq(
                    t.subrange(1, t.len() as int),
                    k,
                ));
            }
        }
    }

    /// When the parent key sits at sibling `i` and nowhere earlier,
    /// attaching rewrites exactly that sibling.
    pub proof fn lemma_append_seq_at(s: Seq<Self>, item: Item, i: int)
        requires
            0 <= i < s.len(),
            forall|j: int| 0 <= j < i ==> !(#[trigger] s[j]).has_key(item.spec_parent()),
            s[i].has_key(item.spec_parent()),
        ensures
            Self::append_seq(s, item) =~= s.update(i, s[i].spec_append(item)),
        decreases i,
    {
        let rest = s.subrange(1, s.len() as int);
        if i == 0 {
            assert(Self::append_seq(s, item) == seq![s[0].spec_append(item)] + rest);
        } else {
            assert(forall|j: int| 0 <= j < rest.len() ==> rest[j] == s[j + 1]);
            Self::lemma_append_seq_at(rest, item, i - 1);
            assert(Self::append_seq(s, item) == seq![s[0]] + Self::append_seq(rest, item));
        }
    }
}

impl<Item: TreeNodeLike> NodeModel<Item> {
    /// Law: no two nodes of a well-formed tree share a key.
    pub proof fn lemma_unique_keys(m: Self, k: u64)
        requires
            m.wf(),
        ensures
            m.key_count(k) <= 1,
    {
    }

    /// Law: in a well-formed tree, sibling order values never decrease from
    /// left to right.
    pub proof fn lemma_siblings_sorted(m: Self, i: int, j: int)
        requires
            m.wf(),
            0 <= i <= j < m.kids.len(),
        ensures
            m.kids[i].item.spec_order() <= m.kids[j].item.spec_order(),
    {
    }

    /// Law: a newly attached item lands right after every sibling whose
    /// order is at most its own and before every sibling with a greater
    /// order, so siblings of equal order keep their arrival order.
    pub proof fn lemma_append_stable(s: Seq<Self>, item: Item)
        requires
            Self::kids_sorted(s),
        ensures
            0 <= Self::insert_pos(s, item.spec_order()) <= s.len(),
            Self::insert_kid(s, item) == s.insert(
                Self::insert_pos(s, item.spec_order()),
                Self::leaf(item),
            ),
            forall|j: int|
                0 <= j < Self::insert_pos(s, item.spec_order()) ==> (#[trigger] s[
                j]).item.spec_order() <= item.spec_order(),
            forall|j: int|
                Self::insert_pos(s, item.spec_order()) <= j < s.len() ==> (#[trigger] s[
                j]).item.spec_order() > item.spec_order(),
    {
        let o = item.spec_order();
        let p = Self::insert_pos(s, o);
        Self::lemma_insert_pos_bounds(s, o);
        assert forall|j: int| p <= j < s.len() implies (#[trigger] s[j]).item.spec_order() > o by {
            assert(s[p].item.spec_order() <= s[j].item.spec_order());
        }
    }
}

/// One tree node: the item it wraps and its ordered children.
#[verifier::ext_equal]
pub struct TreeNode<Item: TreeNodeLike> {
    node: Item,
    children: Vec<TreeNode<Item>>,
}

/// A keyed tree: an optional root node.
pub struct Tree<Item: TreeNodeLike> {
    root: Option<TreeNode<Item>>,
}

impl<Item: TreeNodeLike> Default for Tree<Item> {
    /// The empty tree.
    fn default() -> (t: Self)
        ensures
            t@ is None,
            t.wf(),
    {
        Tree { root: None }
    }
}

impl<Item: TreeNodeLike> TreeNode<Item> {
    /// The model of this node.
    pub closed spec fn view(&self) -> NodeModel<Item>
        decreases self,
    {
        NodeModel { item: self.node, kids: Self::view_seq(self.children@) }
    }

    /// The models of a sequence of nodes.
    pub closed spec fn view_seq(s: Seq<TreeNode<Item>>) -> Seq<NodeModel<Item>>
        decreases s,
    {
        if s.len() == 0 {
            Seq::empty()
        } else {
            seq![s[0].view()] + Self::view_seq(s.subrange(1, s.len() as int))
        }
    }

    /// A node wrapping `val`, with no children yet.
    pub fn new(val: Item) -> (t: TreeNode<Item>)
        ensures
            t@ == NodeModel::leaf(val),
    {
        let t = TreeNode { node: val, children: Vec::new() };
        proof {
            assert(t@.kids =~= Seq::<NodeModel<Item>>::empty());
            assert(t@ =~= NodeModel::leaf(val));
        }
        t
    }

    /// A shared reference to the item this node wraps.
    pub fn item(&self) -> (r: &Item)
        ensures
            *r == self@.item,
    {
        &self.node
    }

    /// How many direct children this node has.
    pub fn child_count(&self) -> (n: usize)
        ensures
            n == self@.kids.len(),
    {
        proof {
            Self::lemma_view_seq(self.children@);
        }
        self.children.len()
    }

    /// A shared reference to the `i`-th direct child, in sibling order.
    pub fn child(&self, i: usize) -> (r: &TreeNode<Item>)
        requires
            i < self@.kids.len(),
        ensures
            r@ == self@.kids[i as int],
    {
        proof {
            Self::lemma_view_seq(self.children@);
        }
        &self.children[i]
    }

    /// `view_seq` is the elementwise view.
    pub proof fn lemma_view_seq(s: Seq<TreeNode<Item>>)
        ensures
            Self::view_seq(s).len() == s.len(),
            forall|i: int| 0 <= i < s.len() ==> Self::view_seq(s)[i] == s[i].view(),
        decreases s,
    {
        if s.len() > 0 {
            Self::lemma_view_seq(s.subrange(1, s.len() as int));
            assert forall|i: int| 0 <= i < s.len() implies Self::view_seq(s)[i] == s[i].view() by {
                if i > 0 {
                    assert(s.subrange(1, s.len() as int)[i - 1] == s[i]);
                }
            }
        }
    }

    /// Find the node carrying key `key` in this subtree, depth first in
    /// sibling order; relies on nothing but the structure.
    pub fn get(&self, key: u64) -> (r: Option<&TreeNode<Item>>)
        ensures
            match r {
                Some(n) => self@.subtree_at(key) == Some(n@),
                None => self@.subtree_at(key) is None,
            },
        decreases *self,
    {
        if self.node.key() == key {
            return Some(self);
        }
        proof {
            Self::lemma_view_seq(self.children@);
            assert(self@.kids.subrange(0, self@.kids.len() as int) =~= self@.kids);
        }
        let mut i: usize = 0;
        while i < self.children.len()
            invariant
                i <= self.children.len(),
                self@.item.spec_key() != key,
                self@.kids == TreeNode::<Item>::view_seq(self.children@),
                self@.kids.len() == self.children@.len(),
                forall|j: int| 0 <= j < self@.kids.len() ==> self@.kids[j] == self.children@[j]@,
                forall|j: int|
                    0 <= j < i ==> (#[trigger] self@.kids[j]).subtree_at(key) is None,
                NodeModel::<Item>::subtree_at_seq(self@.kids, key)
                    == NodeModel::<Item>::subtree_at_seq(
                    self@.kids.subrange(i as int, self@.kids.len() as int),
                    key,
                ),
            decreases self.children.len() - i,
        {
            let found = self.children[i].get(key);
            proof {
                let tail = self@.kids.subrange(i as int, self@.kids.len() as int);
                assert(tail.len() > 0);
                assert(tail[0] == self@.kids[i as int]);
                assert(tail[0] == self.children@[i as int]@);
                assert(tail.subrange(1, tail.len() as int) =~= self@.kids.subrange(
                    i as int + 1,
                    self@.kids.len() as int,
                ));
                assert(self@.item == self.node);
            }
            if found.is_some() {
                proof {
                    let tail = self@.kids.subrange(i as int, self@.kids.len() as int);
                    let n = found->0;
                    assert(tail[0].subtree_at(key) == Some(n@));
                    assert(NodeModel::<Item>::subtree_at_seq(tail, key) == Some(n@));
                    assert(self@.subtree_at(key) == Some(n@));
                }
                return found;
            }
            i = i + 1;
        }
        proof {
            assert(self@.kids.subrange(i as int, self@.kids.len() as int).len() == 0);
            assert(self@.item == self.node);
            assert(self@.subtree_at(key) is None);
        }
        None
    }

    /// Attach `val` under this node when `val` names this node's key as its
    /// parent; duplicates among the direct children are rejected and the
    /// children stay sorted by order.
    pub fn append(&mut self, val: Item) -> (r: bool)
        ensures
            val.spec_parent() != old(self)@.item.spec_key() ==> !r && final(self)@ == old(self)@,
            val.spec_parent() == old(self)@.item.spec_key() && (exists|i: int|
                0 <= i < old(self)@.kids.len() && (#[trigger] old(self)@.kids[i]).item.spec_key()
                    == val.spec_key()) ==> !r && final(self)@ == old(self)@,
            val.spec_parent() == old(self)@.item.spec_key() && (forall|i: int|
                0 <= i < old(self)@.kids.len() ==> (#[trigger] old(self)@.kids[i]).item.spec_key()
                    != val.spec_key()) ==> r && final(self)@ == old(self)@.spec_append(val),
            old(self)@.wf() && old(self)@.key_count(val.spec_key()) == 0 ==> final(self)@.wf(),
    {
        let ghost m = self@;
        if val.parent() == self.node.key() {
            let node = TreeNode::new(val);
            proof {
                assert(node@ == NodeModel::<Item>::leaf(val));
            }
            let ok = insert(&mut self.children, node);
            proof {
                assert(self@.item == m.item);
                assert(self@.kids == Self::view_seq(self.children@));
                if ok {
                    assert(self@.kids == NodeModel::<Item>::insert_kid(m.kids, val));
                    assert(self@ =~= m.spec_append(val));
                }
                if m.wf() && m.key_count(val.spec_key()) == 0 {
                    if ok {
                        NodeModel::<Item>::lemma_spec_append_wf(m, val);
                    } else {
                        assert(self@ =~= m);
                    }
                }
            }
            ok
        } else {
            false
        }
    }

    /// Attach `val` under the first node of this subtree whose key equals
    /// `val`'s parent key, if any; the caller has already ruled out `val`'s
    /// key anywhere in the subtree.
    fn append_under(&mut self, val: Item) -> (res: Option<Item>)
        requires
            old(self)@.wf(),
            old(self)@.key_count(val.spec_key()) == 0,
        ensures
            res is None <==> old(self)@.has_key(val.spec_parent()),
            res is None ==> final(self)@ == old(self)@.spec_append(val),
            res matches Some(v) ==> v == val && final(self)@ == old(self)@,
            final(self)@.wf(),
        decreases old(self)@.size(),
    {
        let ghost m = old(self)@;
        if self.node.key() == val.parent() {
            proof {
                assert(m.has_key(val.spec_parent()));
                assert forall|i: int| 0 <= i < m.kids.len() implies (#[trigger] m.kids[
                i]).item.spec_key() != val.spec_key() by {
                    NodeModel::<Item>::lemma_key_count_seq_index(m.kids, val.spec_key(), i);
                    assert(m.kids[i].key_count(val.spec_key()) == 0);
                }
            }
            let ok = self.append(val);
            proof {
                assert(ok);
                NodeModel::<Item>::lemma_spec_append_wf(m, val);
            }
            return None;
        }
        let mut carried = val;
        proof {
            Self::lemma_view_seq(self.children@);
            assert(m.kids.subrange(0, m.kids.len() as int) =~= m.kids);
        }
        let mut i: usize = 0;
        while i < self.children.len()
            invariant
                i <= self.children.len(),
                m == old(self)@,
                self@ == m,
                m.wf(),
                m.key_count(val.spec_key()) == 0,
                m.item.spec_key() != val.spec_parent(),
                Self::views_elementwise(self.children@),
                m.kids.len() == self.children@.len(),
                forall|j: int| 0 <= j < m.kids.len() ==> m.kids[j] == self.children@[j]@,
                forall|j: int| 0 <= j < i ==> !(#[trigger] m.kids[j]).has_key(val.spec_parent()),
                carried == val,
            decreases self.children.len() - i,
        {
            let ghost self_entry = *self;
            let mut c = self.children.remove(i);
            proof {
                assert(c == self_entry.children@[i as int]);
                assert(c@ == m.kids[i as int]);
                assert(c@.wf());
                NodeModel::<Item>::lemma_key_count_seq_index(m.kids, val.spec_key(), i as int);
                assert(c@.key_count(val.spec_key()) == 0);
                NodeModel::<Item>::lemma_size_seq_index(m.kids, i as int);
                assert(c@.size() < m.size());
            }
            let attempt = c.append_under(carried);
            let ghost c_after = c;
            self.children.insert(i, c);
            proof {
                assert(self.children@ =~= self_entry.children@.update(i as int, c_after));
            }
            match attempt {
                None => {
                    proof {
                        NodeModel::<Item>::lemma_append_seq_at(m.kids, val, i as int);
                        Self::lemma_view_seq(self.children@);
                        assert(c_after@ == m.kids[i as int].spec_append(val));
                        assert forall|j: int| 0 <= j < m.kids.len() implies self.children@[j]@
                            == m.kids.update(i as int, c_after@)[j] by {
                            if j != i {
                                assert(self.children@[j] == self_entry.children@[j]);
                            }
                        }
                        assert(self@.kids =~= m.kids.update(i as int, c_after@));
                        assert(self@ =~= m.spec_append(val));
                        assert(m.kids[i as int].has_key(val.spec_parent()));
                        NodeModel::<Item>::lemma_subtree_at_seq_at(
                            m.kids,
                            val.spec_parent(),
                            i as int,
                        );
                        assert(m.has_key(val.spec_parent()));
                        NodeModel::<Item>::lemma_spec_append_wf(m, val);
                    }
                    return None;
                },
                Some(back) => {
                    carried = back;
                },
            }
            proof {
                assert(c_after@ == m.kids[i as int]);
                Self::lemma_view_seq(self.children@);
                assert forall|j: int| 0 <= j < m.kids.len() implies m.kids[j]
                    == self.children@[j]@ by {
                    if j != i {
                        assert(self.children@[j] == self_entry.children@[j]);
                    }
                }
                assert(self@.kids =~= m.kids);
                assert(self@ =~= m);
            }
            i = i + 1;
        }
        proof {
            NodeModel::<Item>::lemma_subtree_at_seq_none(m.kids, val.spec_parent());
            assert(!m.has_key(val.spec_parent()));
        }
        Some(carried)
    }

    /// `view_seq` is the elementwise view, packaged as a spec-level fact so
    /// loops can carry it.
    spec fn views_elementwise(s: Seq<TreeNode<Item>>) -> bool {
        Self::view_seq(s).len() == s.len() && forall|i: int|
            0 <= i < s.len() ==> Self::view_seq(s)[i] == s[i].view()
    }
}

impl<Item: TreeNodeLike> Tree<Item> {
    /// The model of the tree: the root's model, if a root exists.
    pub closed spec fn view(&self) -> Option<NodeModel<Item>> {
        match self.root {
            Option::None => None,
            Option::Some(n) => Some(n@),
        }
    }

    /// A tree is well-formed when its root subtree is.
    pub open spec fn wf(self) -> bool {
        match self@ {
            Option::None => true,
            Option::Some(m) => m.wf(),
        }
    }

    /// The empty tree.
    pub fn new() -> (t: Tree<Item>)
        ensures
            t@ is None,
            t.wf(),
    {
        Tree { root: None }
    }

    /// Attach `val`: into an empty tree as the root; otherwise under the
    /// node whose key equals `val`'s parent key.  Fails, leaving the tree
    /// unchanged, when `val`'s key is already present anywhere or when no
    /// node carries the declared parent key.
    pub fn append(&mut self, val: Item) -> (r: bool)
        requires
            old(self).wf(),
        ensures
            final(self).wf(),
            old(self)@ is None ==> r && final(self)@ == Some(NodeModel::leaf(val)),
            old(self)@ matches Some(m) ==> {
                &&& m.has_key(val.spec_key()) ==> !r && final(self)@ == old(self)@
                &&& !m.has_key(val.spec_key()) && !m.has_key(val.spec_parent()) ==> !r
                    && final(self)@ == old(self)@
                &&& !m.has_key(val.spec_key()) && m.has_key(val.spec_parent()) ==> r
                    && final(self)@ == Some(m.spec_append(val))
            },
    {
        let k = val.key();
        if self.root.is_none() {
            let node = TreeNode::new(val);
            proof {
                NodeModel::<Item>::lemma_leaf_key_count(val, k);
            }
            self.root = Some(node);
            return true;
        }
        let ghost m = self@->0;
        if self.get(k).is_some() {
            return false;
        }
        proof {
            NodeModel::<Item>::lemma_subtree_at_key(m, k);
            assert(m.key_count(val.spec_key()) == 0);
        }
        match &mut self.root {
            Some(rt) => {
                match rt.append_under(val) {
                    None => true,
                    Some(_) => false,
                }
            },
            None => {
                proof {
                    assert(false);
                }
                false
            },
        }
    }

    /// A shared reference to the root node, if the tree has one.
    pub fn root_node(&self) -> (r: Option<&TreeNode<Item>>)
        ensures
            self@ is None ==> r is None,
            self@ matches Some(m) ==> r matches Some(n) && n@ == m,
    {
        match &self.root {
            None => None,
            Some(rt) => Some(rt),
        }
    }

    /// Find the node carrying key `key`, or nothing when the key is absent
    /// (in particular on the empty tree).
    pub fn get(&self, key: u64) -> (r: Option<&TreeNode<Item>>)
        ensures
            match self@ {
                Option::None => r is None,
                Option::Some(m) => match r {
                    Some(n) => m.subtree_at(key) == Some(n@),
                    None => m.subtree_at(key) is None,
                },
            },
    {
        match &self.root {
            None => None,
            Some(rt) => rt.get(key),
        }
    }
}

/// Place `node` among the sibling nodes `v`: reject a duplicate key among
/// them, otherwise insert right after the block of siblings whose order is
/// at most the new node's order.
pub fn insert<Item: TreeNodeLike>(v: &mut Vec<TreeNode<Item>>, node: TreeNode<Item>) -> (r: bool)
    ensures
        ({
            let s = TreeNode::<Item>::view_seq(old(v)@);
            let t = TreeNode::<Item>::view_seq(final(v)@);
            &&& ((exists|i: int|
                0 <= i < s.len() && (#[trigger] s[i]).item.spec_key() == node@.item.spec_key())
                ==> !r && *final(v) == *old(v))
            &&& ((forall|i: int|
                0 <= i < s.len() ==> (#[trigger] s[i]).item.spec_key() != node@.item.spec_key())
                ==> r && t == s.insert(
                NodeModel::<Item>::insert_pos(s, node@.item.spec_order()),
                node@,
            ))
        }),
{
    let ghost s = TreeNode::<Item>::view_seq(old(v)@);
    proof {
        TreeNode::<Item>::lemma_view_seq(v@);
    }
    let key = node.node.key();
    let mut i: usize = 0;
    while i < v.len()
        invariant
            i <= v.len(),
            *v == *old(v),
            s == TreeNode::<Item>::view_seq(v@),
            s.len() == v@.len(),
            forall|j: int| 0 <= j < s.len() ==> s[j] == v@[j]@,
            key == node@.item.spec_key(),
            forall|j: int| 0 <= j < i ==> (#[trigger] s[j]).item.spec_key() != key,
        decreases v.len() - i,
    {
        if v[i].node.key() == key {
            proof {
                assert(s[i as int].item.spec_key() == key);
            }
            return false;
        }
        i = i + 1;
    }
    let o = node.node.order();
    let mut p: usize = 0;
    while p < v.len() && v[p].node.order() <= o
        invariant
            p <= v.len(),
            *v == *old(v),
            s == TreeNode::<Item>::view_seq(v@),
            s.len() == v@.len(),
            forall|j: int| 0 <= j < s.len() ==> s[j] == v@[j]@,
            o == node@.item.spec_order(),
            forall|j: int| 0 <= j < p ==> (#[trigger] s[j]).item.spec_order() <= o,
        decreases v.len() - p,
    {
        p = p + 1;
    }
    proof {
        NodeModel::<Item>::lemma_insert_pos_char(s, o, p as int);
    }
    let ghost node_model = node@;
    v.insert(p, node);
    proof {
        TreeNode::<Item>::lemma_view_seq(v@);
        assert(v@ =~= old(v)@.insert(p as int, node));
        assert(TreeNode::<Item>::view_seq(v@) =~= s.insert(p as int, node_model));
    }
    true
}

} // verus!


