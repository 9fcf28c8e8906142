//! JSON serialization of trees.
//!
//! Each node emits its item followed by a `children` field only when the
//! node has at least one child; a leaf omits the field entirely instead of
//! emitting an empty array.
use crate::tree::NodeModel;
use crate::tree::Tree;
use crate::tree::TreeNode;
use crate::tree::TreeNodeLike;
use vstd::prelude::*;
use vstd::string::StringExecFns;

verus! {

/// An item that can state and produce its own JSON form.
pub trait JsonItem: Sized {
    /// The item's JSON text, as seen by specifications.
    spec fn spec_json(&self) -> Seq<char>;

    /// The item's JSON text.
    fn to_json(&self) -> (s: String)
        ensures
            s@ == self.spec_json(),
    ;
}

/// The decimal digits of `n`, most significant first.
pub open spec fn dec_digits(n: nat) -> Seq<char>
    decreases n,
{
    if n < 10 {
        seq![digit_char(n)]
    } else {
        dec_digits(n / 10) + seq![digit_char(n % 10)]
    }
}

/// The character for one decimal digit.
pub open spec fn digit_char(d: nat) -> char {
    ((48 + d) as u8) as char
}

/// The JSON text of a signed number: a minus sign for negative values,
/// then the decimal digits of the magnitude.
pub open spec fn int_digits(o: int) -> Seq<char> {
    if o >= 0 {
        dec_digits(o as nat)
    } else {
        seq!['-'] + dec_digits((-o) as nat)
    }
}

impl<Item: TreeNodeLike + JsonItem> NodeModel<Item> {
    /// The JSON text of this subtree: the item under a `node` field, and a
    /// `children` field exactly when there are children.
    pub open spec fn json(self) -> Seq<char>
        decreases self,
    {
        if self.kids.len() == 0 {
            "{\"node\":"@ + self.item.spec_json() + "}"@
        } else {
            "{\"node\":"@ + self.item.spec_json() + ",\"children\":["@ + Self::json_seq(self.kids)
                + "]}"@
        }
    }

    /// The JSON texts of sibling subtrees, joined by commas.
    pub open spec fn json_seq(s: Seq<Self>) -> Seq<char>
        decreases s,
    {
        if s.len() == 0 {
            Seq::empty()
        } else if s.len() == 1 {
            s[0].json()
        } else {
            s[0].json() + ","@ + Self::json_seq(s.subrange(1, s.len() as int))
        }
    }

    /// Splitting the join of the first `i + 1` siblings after the first `i`.
    pub proof fn lemma_json_seq_snoc(s: Seq<Self>, i: int)
        requires
            1 <= i < s.len(),
        ensures
            Self::json_seq(s.subrange(0, i + 1)) == Self::json_seq(s.subrange(0, i)) + ","@ + s[
                i
            ].json(),
        decreases i,
    {
        let a = s.subrange(0, i + 1);
        let b = s.subrange(0, i);
        let at = a.subrange(1, a.len() as int);
        let bt = b.subrange(1, b.len() as int);
        let t = s.subrange(1, s.len() as int);
        assert(a[0] == s[0]);
        assert(at =~= t.subrange(0, i));
        if i == 1 {
            assert(at =~= seq![s[1]]);
            assert(Self::json_seq(seq![s[1]]) == s[1].json());
            assert(Self::json_seq(a) == a[0].json() + ","@ + Self::json_seq(at));
            assert(Self::json_seq(b) == s[0].json());
            assert(Self::json_seq(a) =~= Self::json_seq(b) + ","@ + s[i].json());
        } else {
            Self::lemma_json_seq_snoc(t, i - 1);
            assert(t[i - 1] == s[i]);
            assert(b[0] == s[0]);
            assert(bt =~= t.subrange(0, i - 1));
            assert(Self::json_seq(a) == a[0].json() + ","@ + Self::json_seq(at));
            assert(Self::json_seq(b) == b[0].json() + ","@ + Self::json_seq(bt));
            assert(Self::json_seq(at) == Self::json_seq(bt) + ","@ + s[i].json());
            assert(Self::json_seq(a) =~= Self::json_seq(b) + ","@ + s[i].json());
        }
    }

    /// A leaf's JSON has no `children` field; a node with children carries
    /// one, listing the children in sibling order.
    pub proof fn lemma_json_children_field(m: Self)
        ensures
            m.kids.len() == 0 ==> m.json() == "{\"node\":"@ + m.item.spec_json() + "}"@,
            m.kids.len() > 0 ==> m.json() == "{\"node\":"@ + m.item.spec_json()
                + ",\"children\":["@ + Self::json_seq(m.kids) + "]}"@,
    {
    }
}

impl<Item: TreeNodeLike + JsonItem> TreeNode<Item> {
    /// Serialize this subtree; a `children` field appears exactly when the
    /// node has children.
    pub fn to_json(&self) -> (out: String)
        ensures
            out@ == self@.json(),
        decreases self@.size(),
    {
        let mut out = String::new();
        out.append("{\"node\":");
        let item_json = self.item().to_json();
        out.append(item_json.as_str());
        let n = self.child_count();
        if n == 0 {
            out.append("}");
            proof {
                assert(out@ =~= self@.json());
            }
            return out;
        }
        out.append(",\"children\":[");
        let ghost head = "{\"node\":"@ + self@.item.spec_json() + ",\"children\":["@;
        let mut i: usize = 0;
        while i < n
            invariant
                0 < n == self@.kids.len(),
                i <= n,
                head == "{\"node\":"@ + self@.item.spec_json() + ",\"children\":["@,
                i == 0 ==> out@ == head,
                i > 0 ==> out@ == head + NodeModel::<Item>::json_seq(
                    self@.kids.subrange(0, i as int),
                ),
            decreases n - i,
        {
            if i > 0 {
                out.append(",");
            }
            let c = self.child(i);
            proof {
                NodeModel::<Item>::lemma_size_seq_index(self@.kids, i as int);
                assert(c@.size() < self@.size());
            }
            let cj = c.to_json();
            out.append(cj.as_str());
            proof {
                if i == 0 {
                    assert(self@.kids.subrange(0, 1) =~= seq![self@.kids[0]]);
                    assert(NodeModel::<Item>::json_seq(self@.kids.subrange(0, 1)) == c@.json());
                    assert(out@ =~= head + NodeModel::<Item>::json_seq(
                        self@.kids.subrange(0, 1),
                    ));
                } else {
                    NodeModel::<Item>::lemma_json_seq_snoc(self@.kids, i as int);
                    assert(out@ =~= head + NodeModel::<Item>::json_seq(
                        self@.kids.subrange(0, i as int + 1),
                    ));
                }
            }
            i = i + 1;
        }
        out.append("]}");
        proof {
            assert(self@.kids.subrange(0, n as int) =~= self@.kids);
            assert(out@ =~= self@.json());
        }
        out
    }
}

impl<Item: TreeNodeLike + JsonItem> Tree<Item> {
    /// Serialize the tree: the root's JSON, or `null` for the empty tree.
    pub fn to_json(&self) -> (out: String)
        ensures
            self@ matches Some(m) ==> out@ == m.json(),
            self@ is None ==> out@ == "null"@,
    {
        match self.root_node() {
            None => {
                let mut out = String::new();
                out.append("null");
                out
            },
            Some(rt) => rt.to_json(),
        }
    }
}

/// Append the decimal digits of `n` to `out`.
fn push_dec(out: &mut String, n: u64)
    ensures
        final(out)@ == old(out)@ + dec_digits(n as nat),
    decreases n,
{
    if n >= 10 {
        push_dec(out, n / 10);
        push_digit(out, n % 10);
        proof {
            assert(old(out)@ + dec_digits((n / 10) as nat) + seq![digit_char((n % 10) as nat)]
                =~= old(out)@ + dec_digits(n as nat));
        }
    } else {
        push_digit(out, n);
        proof {
            assert(old(out)@ + seq![digit_char(n as nat)] =~= old(out)@ + dec_digits(n as nat));
        }
    }
}

/// Append one decimal digit to `out`.
fn push_digit(out: &mut String, d: u64)
    requires
        d < 10,
    ensures
        final(out)@ == old(out)@ + seq![digit_char(d as nat)],
{
    proof {
        reveal_strlit("0");
        reveal_strlit("1");
        reveal_strlit("2");
        reveal_strlit("3");
        reveal_strlit("4");
        reveal_strlit("5");
        reveal_strlit("6");
        reveal_strlit("7");
        reveal_strlit("8");
        reveal_strlit("9");
    }
    match d {
        0 => out.append("0"),
        1 => out.append("1"),
        2 => out.append("2"),
        3 => out.append("3"),
        4 => out.append("4"),
        5 => out.append("5"),
        6 => out.append("6"),
        7 => out.append("7"),
        8 => out.append("8"),
        _ => out.append("9"),
    }
}

/// A flat record: its own key, the key of its intended parent, and an order
/// value deciding placement among siblings.
#[derive(Debug, Clone, Copy, PartialEq, Eq, Structural)]
pub struct Record {
    pub key: u64,
    pub order: i64,
    pub parent: u64,
}

impl TreeNodeLike for Record {
    open spec fn spec_key(&self) -> u64 {
        self.key
    }

    open spec fn spec_parent(&self) -> u64 {
        self.parent
    }

    open spec fn spec_order(&self) -> i64 {
        self.order
    }

    fn key(&self) -> (k: u64) {
        self.key
    }

    fn parent(&self) -> (p: u64) {
        self.parent
    }

    fn order(&self) -> (o: i64) {
        self.order
    }
}

impl JsonItem for Record {
    open spec fn spec_json(&self) -> Seq<char> {
        "{\"key\":"@ + dec_digits(self.key as nat) + ",\"order\":"@ + int_digits(
            self.order as int,
        ) + ",\"parent\":"@ + dec_digits(self.parent as nat) + "}"@
    }

    fn to_json(&self) -> (s: String) {
        let mut out = String::new();
        out.append("{\"key\":");
        push_dec(&mut out, self.key);
        out.append(",\"order\":");
        if self.order >= 0 {
            push_dec(&mut out, self.order as u64);
        } else {
            out.append("-");
            proof {
                reveal_strlit("-");
            }
            let mag: u64 = ((-(self.order + 1)) as u64) + 1;
            proof {
                assert(mag as nat == (-(self.order as int)) as nat);
            }
            push_dec(&mut out, mag);
        }
        out.append(",\"parent\":");
        push_dec(&mut out, self.parent);
        out.append("}");
        proof {
            assert(out@ =~= self.spec_json());
        }
        out
    }
}

} // verus!
