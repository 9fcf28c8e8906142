//! Sequence containers: a singly linked list, and a doubly linked list laid
//! out as an arena of nodes addressed by integer handles (so links need no
//! shared ownership and no interior mutability).
use vstd::pervasive::VecAdditionalExecFns;
use vstd::pervasive::cloned;
use vstd::prelude::*;

verus! {

/// A singly linked list: empty, or a first value followed by the rest.
#[derive(Debug)]
pub struct List<T>(Option<(T, Box<List<T>>)>);

impl<T> List<T> {
    /// The sequence of values held, front first.
    pub closed spec fn view(&self) -> Seq<T>
        decreases self,
    {
        match self.0 {
            None => Seq::empty(),
            Some(p) => seq![p.0] + p.1.view(),
        }
    }

    /// The empty list.
    pub fn new() -> (l: List<T>)
        ensures
            l@ == Seq::<T>::empty(),
    {
        List(None)
    }

    /// Put `data` in front of everything already held.
    pub fn push_front(&mut self, data: T)
        ensures
            final(self)@ == seq![data] + old(self)@,
    {
        let t = self.0.take();
        self.0 = Some((data, Box::new(List(t))));
    }

    /// Remove and return the front value, if any.
    pub fn pop_front(&mut self) -> (r: Option<T>)
        ensures
            old(self)@.len() == 0 ==> r is None && final(self)@ == old(self)@,
            old(self)@.len() > 0 ==> r == Some(old(self)@[0]) && final(self)@ == old(self)@.subrange(1, old(self)@.len() as int),
    {
        match self.0.take() {
            None => None,
            Some((val, next)) => {
                let rest = *next;
                self.0 = rest.0;
                proof {
                    assert(final(self)@ =~= old(self)@.subrange(1, old(self)@.len() as int));
                }
                Some(val)
            },
        }
    }

    /// Put `data` behind everything already held.
    pub fn push_back(&mut self, data: T)
        ensures
            final(self)@ == old(self)@.push(data),
        decreases old(self)@.len(),
    {
        let head = self.0.take();
        match head {
            None => {
                self.0 = Some((data, Box::new(List(None))));
                proof {
                    assert(final(self)@ =~= old(self)@.push(data));
                }
            },
            Some((v, mut rest)) => {
                rest.push_back(data);
                self.0 = Some((v, rest));
                proof {
                    assert(final(self)@ =~= old(self)@.push(data));
                }
            },
        }
    }

    /// Whether nothing is held.
    pub fn is_empty(&self) -> (r: bool)
        ensures
            r == (self@.len() == 0),
    {
        self.0.is_none()
    }

    /// How many values are held.
    pub fn len(&self) -> (n: usize)
        requires
            self@.len() <= usize::MAX,
        ensures
            n == self@.len(),
        decreases self@.len(),
    {
        match &self.0 {
            None => 0,
            Some(p) => {
                let rest = p.1.len();
                1 + rest
            },
        }
    }
}

impl<T> Default for List<T> {
    /// The empty list.
    fn default() -> (l: Self)
        ensures
            l@ == Seq::<T>::empty(),
    {
        List(None)
    }
}

/// One arena slot of the doubly linked list: the value (absent once popped)
/// and the handles of the neighbouring slots.
pub struct ListNode<T> {
    val: Option<T>,
    next: Option<usize>,
    prev: Option<usize>,
}

/// A doubly linked list over an arena: nodes are addressed by index, the
/// live ones are chained through `next`/`prev` handles.
pub struct DoubleLinkedList<T: Clone> {
    arena: Vec<ListNode<T>>,
    head: Option<usize>,
    tail: Option<usize>,
    pub length: u64,
    order: Ghost<Seq<usize>>,
}

impl<T: Clone> DoubleLinkedList<T> {
    /// Structural soundness: the recorded order lists distinct, in-range
    /// arena slots whose links chain them in exactly that order, `head`,
    /// `tail` and `length` agree with it, and every live slot holds a value.
    pub closed spec fn wf(&self) -> bool {
        let ord = self.order@;
        &&& forall|k: int| 0 <= k < ord.len() ==> (#[trigger] ord[k]) < self.arena@.len()
        &&& forall|k1: int, k2: int| 0 <= k1 < k2 < ord.len() ==> ord[k1] != ord[k2]
        &&& forall|k: int|
            0 <= k < ord.len() ==> (#[trigger] self.arena@[ord[k] as int].val) is Some
        &&& forall|k: int|
            0 <= k < ord.len() ==> (#[trigger] self.arena@[ord[k] as int].next) == (if k + 1
                < ord.len() {
                Some(ord[k + 1])
            } else {
                None::<usize>
            })
        &&& forall|k: int|
            0 <= k < ord.len() ==> (#[trigger] self.arena@[ord[k] as int].prev) == (if k > 0 {
                Some(ord[k - 1])
            } else {
                None::<usize>
            })
        &&& self.head == (if ord.len() > 0 {
            Some(ord[0])
        } else {
            None::<usize>
        })
        &&& self.tail == (if ord.len() > 0 {
            Some(ord[ord.len() - 1])
        } else {
            None::<usize>
        })
        &&& self.length as int == ord.len()
        &&& ord.len() <= self.arena@.len()
    }

    /// The sequence of values held, front first.
    pub closed spec fn view(&self) -> Seq<T> {
        Seq::new(self.order@.len(), |k: int| self.arena@[self.order@[k] as int].val->0)
    }

    /// Put `val` at the back.
    pub fn append(&mut self, val: T)
        requires
            old(self).wf(),
            old(self)@.len() < u64::MAX,
            old(self).arena_len() < usize::MAX,
        ensures
            final(self).wf(),
            final(self)@ == old(self)@.push(val),
            final(self).spec_length() == old(self).spec_length() + 1,
            final(self).arena_len() == old(self).arena_len() + 1,
    {
        let ghost ord0 = self.order@;
        let idx = self.arena.len();
        self.arena.push(ListNode { val: Some(val), next: None, prev: self.tail });
        match self.tail {
            Some(t) => {
                let mut tmp = ListNode { val: None, next: None, prev: None };
                self.arena.set_and_swap(t, &mut tmp);
                tmp.next = Some(idx);
                self.arena.set_and_swap(t, &mut tmp);
            },
            None => {
                self.head = Some(idx);
            },
        }
        self.tail = Some(idx);
        self.length = self.length + 1;
        self.order = Ghost(ord0.push(idx));
        proof {
            let ord = self.order@;
            assert(forall|k: int| 0 <= k < ord0.len() ==> ord[k] == ord0[k]);
            assert(ord[ord.len() - 1] == idx);
            assert(final(self)@ =~= old(self)@.push(val));
        }
    }

    /// How many arena slots exist (live or spent).
    pub closed spec fn arena_len(&self) -> nat {
        self.arena@.len()
    }

    /// The public `length` field, as seen by specifications.
    pub closed spec fn spec_length(&self) -> u64 {
        self.length
    }

    /// In a sound list the public `length` field counts exactly the values
    /// held.
    pub proof fn lemma_length_is_len(&self)
        requires
            self.wf(),
        ensures
            self.spec_length() as int == self@.len(),
    {
    }

    /// Remove and return the front value, if any.
    pub fn pop(&mut self) -> (r: Option<T>)
        requires
            old(self).wf(),
        ensures
            final(self).wf(),
            final(self).arena_len() == old(self).arena_len(),
            old(self)@.len() == 0 ==> r is None && final(self)@ == old(self)@
                && final(self).spec_length() == old(self).spec_length(),
            old(self)@.len() > 0 ==> r == Some(old(self)@[0]) && final(self)@ == old(self)@.subrange(1, old(self)@.len() as int) && final(self).spec_length() == old(self).spec_length()
                - 1,
    {
        let ghost ord0 = self.order@;
        let h = match self.head {
            None => {
                proof {
                    assert(final(self)@ =~= old(self)@);
                }
                return None;
            },
            Some(h) => h,
        };
        let mut node = ListNode { val: None, next: None, prev: None };
        self.arena.set_and_swap(h, &mut node);
        let out = node.val.take();
        let nx = node.next;
        self.arena.set_and_swap(h, &mut node);
        match nx {
            Some(n2) => {
                proof {
                    assert(ord0.len() > 1) by {
                        if ord0.len() == 1 {
                            assert(self.arena@[ord0[0] as int].next is None);
                        }
                    }
                    assert(n2 == ord0[1]);
                }
                let mut tmp = ListNode { val: None, next: None, prev: None };
                self.arena.set_and_swap(n2, &mut tmp);
                tmp.prev = None;
                self.arena.set_and_swap(n2, &mut tmp);
                self.head = Some(n2);
            },
            None => {
                proof {
                    assert(ord0.len() == 1) by {
                        if ord0.len() > 1 {
                            assert(self.arena@[ord0[0] as int].next == Some(ord0[1]));
                        }
                    }
                }
                self.head = None;
                self.tail = None;
            },
        }
        self.length = self.length - 1;
        self.order = Ghost(ord0.subrange(1, ord0.len() as int));
        proof {
            let ord = self.order@;
            assert(forall|k: int| 0 <= k < ord.len() ==> ord[k] == ord0[k + 1]);
            assert(final(self)@ =~= old(self)@.subrange(1, old(self)@.len() as int));
        }
        out
    }

    /// An iterator over a snapshot of the values, front first.
    pub fn iter(&self) -> (it: DoubleLinkedListIterator<T>)
        requires
            self.wf(),
        ensures
            it.remaining().len() == self@.len(),
            forall|k: int| 0 <= k < self@.len() ==> cloned::<T>(self@[k], it.remaining()[k]),
    {
        let mut items: Vec<T> = Vec::new();
        let mut cur = self.head;
        let ghost ord = self.order@;
        let alen = self.arena.len();
        let mut steps: usize = 0;
        while cur.is_some()
            invariant
                self.wf(),
                ord == self.order@,
                ord.len() <= alen,
                steps <= ord.len(),
                items@.len() == steps,
                cur == (if steps < ord.len() {
                    Some(ord[steps as int])
                } else {
                    None::<usize>
                }),
                forall|k: int| 0 <= k < steps ==> cloned::<T>(self@[k], items@[k]),
            decreases ord.len() - steps,
        {
            let c = match cur {
                Some(c) => c,
                None => {
                    proof {
                        assert(false);
                    }
                    0
                },
            };
            let v = self.arena[c].val.as_ref().unwrap().clone();
            items.push(v);
            cur = self.arena[c].next;
            steps = steps + 1;
        }
        DoubleLinkedListIterator::new(items)
    }
}

impl<T: Clone> Default for DoubleLinkedList<T> {
    /// The empty list.
    fn default() -> (d: Self)
        ensures
            d.wf(),
            d@ == Seq::<T>::empty(),
            d.spec_length() == 0,
            d.arena_len() == 0,
    {
        let d = DoubleLinkedList {
            arena: Vec::new(),
            head: None,
            tail: None,
            length: 0,
            order: Ghost(Seq::empty()),
        };
        proof {
            assert(d@ =~= Seq::<T>::empty());
        }
        d
    }
}

/// Walks a snapshot of a doubly linked list's values, front first.
pub struct DoubleLinkedListIterator<T: Clone> {
    items: Vec<T>,
}

impl<T: Clone> DoubleLinkedListIterator<T> {
    /// The values not yet handed out.
    pub closed spec fn remaining(&self) -> Seq<T> {
        self.items@
    }

    /// An iterator over the given snapshot, from its front.
    fn new(items: Vec<T>) -> (it: Self)
        ensures
            it.remaining() == items@,
    {
        DoubleLinkedListIterator { items }
    }

    /// The next value of the snapshot, or nothing when it is exhausted.
    pub fn next(&mut self) -> (r: Option<T>)
        ensures
            old(self).remaining().len() == 0 ==> r is None && final(self).remaining() == old(self).remaining(),
            old(self).remaining().len() > 0 ==> r == Some(old(self).remaining()[0]) && final(self).remaining() == old(self).remaining().subrange(
                1,
                old(self).remaining().len() as int,
            ),
    {
        if self.items.len() > 0 {
            let v = self.items.remove(0);
            proof {
                assert(final(self).remaining() =~= old(self).remaining().subrange(
                    1,
                    old(self).remaining().len() as int,
                ));
            }
            Some(v)
        } else {
            None
        }
    }
}

} // verus!
