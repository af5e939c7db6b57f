//! The list core: arena storage, push and pop at both ends, peeks.

use vstd::prelude::*;

verus! {

/// One element of the list: a payload and an optional arena index of each
/// neighbour.  `prev` points toward the front, `next` toward the back.
pub(crate) struct Node<T> {
    pub(crate) elem: T,
    pub(crate) prev: Option<usize>,
    pub(crate) next: Option<usize>,
}

impl<T> Node<T> {
    /// A fresh node holding `elem`, linked to no neighbour yet.
    pub(crate) fn new(elem: T) -> (n: Node<T>)
        ensures
            n.elem == elem,
            n.prev.is_none(),
            n.next.is_none(),
    {
        Node { elem, prev: None, next: None }
    }
}

/// A doubly-linked deque.
///
/// Nodes live in a dense arena (`nodes`); `head` and `tail` hold the arena
/// indices of the front-most and back-most node.  The ghost `order` records
/// the arena index of each element from front to back, which ties the
/// concrete links to the abstract sequence of payloads.
pub struct List<T> {
    pub(crate) nodes: Vec<Node<T>>,
    pub(crate) head: Option<usize>,
    pub(crate) tail: Option<usize>,
    pub(crate) order: Ghost<Seq<usize>>,
}

impl<T> View for List<T> {
    type V = Seq<T>;

    /// The payloads from front to back.
    closed spec fn view(&self) -> Seq<T> {
        Seq::new(self.order@.len(), |k: int| self.nodes@[self.order@[k] as int].elem)
    }
}

impl<T> Default for List<T> {
    /// An empty list.
    fn default() -> (l: List<T>)
        ensures
            l.wf(),
            l@ == Seq::<T>::empty(),
    {
        List::new()
    }
}

impl<T> List<T> {
    /// The structural invariant: `order` is a permutation of the arena
    /// indices, `head`/`tail` mark its two ends, and each node's `prev` and
    /// `next` link it to its neighbours in `order`, mirror images of each
    /// other.
    pub closed spec fn wf(&self) -> bool {
        let ord = self.order@;
        let n = self.nodes@.len() as int;
        &&& ord.len() == n
        &&& forall|k: int| 0 <= k < n ==> (#[trigger] ord[k]) < n
        &&& forall|k1: int, k2: int|
            0 <= k1 < n && 0 <= k2 < n && k1 != k2 ==> #[trigger] ord[k1] != #[trigger] ord[k2]
        &&& forall|i: usize| i < n ==> #[trigger] ord.contains(i)
        &&& self.head == (if n == 0 { None::<usize> } else { Some(ord[0]) })
        &&& self.tail == (if n == 0 { None::<usize> } else { Some(ord[n - 1]) })
        &&& forall|k: int| 0 <= k < n ==>
            (#[trigger] self.nodes@[ord[k] as int].prev)
                == (if k == 0 { None::<usize> } else { Some(ord[k - 1]) })
        &&& forall|k: int| 0 <= k < n ==>
            (#[trigger] self.nodes@[ord[k] as int].next)
                == (if k == n - 1 { None::<usize> } else { Some(ord[k + 1]) })
    }

    /// An empty list.
    pub fn new() -> (l: List<T>)
        ensures
            l.wf(),
            l@ == Seq::<T>::empty(),
    {
        List { nodes: Vec::new(), head: None, tail: None, order: Ghost(Seq::empty()) }
    }

    /// Insert `elem` at the front.
    pub fn push_front(&mut self, elem: T)
        requires
            old(self).wf(),
        ensures
            final(self).wf(),
            final(self)@ == seq![elem].add(old(self)@),
    {
        let i = self.nodes.len();
        let old_head = self.head;
        let mut node = Node::new(elem);
        node.next = old_head;
        self.nodes.push(node);
        match old_head {
            Some(h) => {
                self.nodes[h].prev = Some(i);
            }
            None => {
                self.tail = Some(i);
            }
        }
        self.head = Some(i);
        proof {
            let ord0 = old(self).order@;
            let n0 = ord0.len() as int;
            self.order@ = seq![i].add(ord0);
            let ord1 = self.order@;
            assert forall|x: usize| x < n0 + 1 implies ord1.contains(x) by {
                if x == i {
                    assert(ord1[0] == x);
                } else {
                    assert(ord0.contains(x));
                    assert(exists|k: int| 0 <= k < n0 && ord0[k] == x);
                    let k = choose|k: int| 0 <= k < n0 && ord0[k] == x;
                    assert(ord1[k + 1] == x);
                }
            };
            assert(self@ =~= seq![elem].add(old(self)@));
        }
    }

    /// Insert `elem` at the back.
    pub fn push_back(&mut self, elem: T)
        requires
            old(self).wf(),
        ensures
            final(self).wf(),
            final(self)@ == old(self)@.push(elem),
    {
        let i = self.nodes.len();
        let old_tail = self.tail;
        let mut node = Node::new(elem);
        node.prev = old_tail;
        self.nodes.push(node);
        match old_tail {
            Some(t) => {
                self.nodes[t].next = Some(i);
            }
            None => {
                self.head = Some(i);
            }
        }
        self.tail = Some(i);
        proof {
            let ord0 = old(self).order@;
            let n0 = ord0.len() as int;
            self.order@ = ord0.push(i);
            let ord1 = self.order@;
            assert forall|x: usize| x < n0 + 1 implies ord1.contains(x) by {
                if x == i {
                    assert(ord1[n0] == x);
                } else {
                    assert(ord0.contains(x));
                    assert(exists|k: int| 0 <= k < n0 && ord0[k] == x);
                    let k = choose|k: int| 0 <= k < n0 && ord0[k] == x;
                    assert(ord1[k] == x);
                }
            };
            assert(self@ =~= old(self)@.push(elem));
        }
    }

    /// Remove and return the front element, or `None` when the list is empty.
    #[verifier::rlimit(100)]
    pub fn pop_front(&mut self) -> (r: Option<T>)
        requires
            old(self).wf(),
        ensures
            final(self).wf(),
            old(self)@.len() == 0 ==> r.is_none() && final(self)@ == old(self)@,
            old(self)@.len() > 0 ==> r == Some(old(self)@[0]) && final(self)@
                == old(self)@.drop_first(),
    {
        let h: usize = match self.head {
            None => {
                return None;
            },
            Some(h) => h,
        };
        let ghost ord0 = old(self).order@;
        let ghost n = ord0.len() as int;
        proof {
            assert(n > 0);
            assert(ord0[0] == h);
        }
        let next = self.nodes[h].next;
        match next {
            Some(n2) => {
                proof {
                    assert(n >= 2);
                    assert(n2 == ord0[1]);
                    assert(n2 != h);
                }
                self.nodes[n2].prev = None;
                self.head = Some(n2);
            },
            None => {
                proof {
                    assert(n == 1);
                }
                self.head = None;
                self.tail = None;
            },
        }
        let last = self.nodes.len() - 1;
        let node = self.nodes.swap_remove(h);
        let ghost j = (if h == last {
            0int
        } else {
            choose|j: int| 0 <= j < n && ord0[j] == last
        });
        proof {
            if h != last {
                assert(ord0.contains(last));
                assert(exists|j: int| 0 <= j < n && ord0[j] == last);
                assert(ord0[j] == last);
                assert(j != 0);
            }
        }
        if h != last {
            let moved_prev = self.nodes[h].prev;
            let moved_next = self.nodes[h].next;
            match moved_prev {
                Some(p) => {
                    proof {
                        assert(j >= 2);
                        assert(p == ord0[j - 1]);
                        assert(p != h && p != last);
                    }
                    self.nodes[p].next = Some(h);
                },
                None => {
                    proof {
                        assert(j == 1);
                    }
                    self.head = Some(h);
                },
            }
            match moved_next {
                Some(nx) => {
                    proof {
                        assert(j < n - 1);
                        assert(nx == ord0[j + 1]);
                        assert(nx != h && nx != last);
                    }
                    self.nodes[nx].prev = Some(h);
                },
                None => {
                    proof {
                        assert(j == n - 1);
                    }
                    self.tail = Some(h);
                },
            }
        }
        proof {
            let ord1 = Seq::new(
                (n - 1) as nat,
                |k: int| (if ord0[k + 1] == last { h } else { ord0[k + 1] }),
            );
            self.order@ = ord1;
            assert forall|x: usize| x < n - 1 implies ord1.contains(x) by {
                if x == h && h != last {
                    assert(ord1[j - 1] == x);
                } else {
                    assert(ord0.contains(x));
                    assert(exists|k: int| 0 <= k < n && ord0[k] == x);
                    let k = choose|k: int| 0 <= k < n && ord0[k] == x;
                    assert(k != 0);
                    assert(ord1[k - 1] == x);
                }
            };
            assert(self.wf());
            assert(self@ =~= old(self)@.drop_first());
        }
        Some(node.elem)
    }

    /// Remove and return the back element, or `None` when the list is empty.
    #[verifier::rlimit(100)]
    pub fn pop_back(&mut self) -> (r: Option<T>)
        requires
            old(self).wf(),
        ensures
            final(self).wf(),
            old(self)@.len() == 0 ==> r.is_none() && final(self)@ == old(self)@,
            old(self)@.len() > 0 ==> r == Some(old(self)@.last()) && final(self)@
                == old(self)@.drop_last(),
    {
        let t: usize = match self.tail {
            None => {
                return None;
            },
            Some(t) => t,
        };
        let ghost ord0 = old(self).order@;
        let ghost n = ord0.len() as int;
        proof {
            assert(n > 0);
            assert(ord0[n - 1] == t);
        }
        let prev = self.nodes[t].prev;
        match prev {
            Some(p2) => {
                proof {
                    assert(n >= 2);
                    assert(p2 == ord0[n - 2]);
                    assert(p2 != t);
                }
                self.nodes[p2].next = None;
                self.tail = Some(p2);
            },
            None => {
                proof {
                    assert(n == 1);
                }
                self.head = None;
                self.tail = None;
            },
        }
        let last = self.nodes.len() - 1;
        let node = self.nodes.swap_remove(t);
        let ghost j = (if t == last {
            0int
        } else {
            choose|j: int| 0 <= j < n && ord0[j] == last
        });
        proof {
            if t != last {
                assert(ord0.contains(last));
                assert(exists|j: int| 0 <= j < n && ord0[j] == last);
                assert(ord0[j] == last);
                assert(j != n - 1);
            }
        }
        if t != last {
            let moved_prev = self.nodes[t].prev;
            let moved_next = self.nodes[t].next;
            match moved_prev {
                Some(p) => {
                    proof {
                        assert(j >= 1);
                        assert(p == ord0[j - 1]);
                        assert(p != t && p != last);
                    }
                    self.nodes[p].next = Some(t);
                },
                None => {
                    proof {
                        assert(j == 0);
                    }
                    self.head = Some(t);
                },
            }
            match moved_next {
                Some(nx) => {
                    proof {
                        assert(j < n - 2);
                        assert(nx == ord0[j + 1]);
                        assert(nx != t && nx != last);
                    }
                    self.nodes[nx].prev = Some(t);
                },
                None => {
                    proof {
                        assert(j == n - 2);
                    }
                    self.tail = Some(t);
                },
            }
        }
        proof {
            let ord1 = Seq::new(
                (n - 1) as nat,
                |k: int| (if ord0[k] == last { t } else { ord0[k] }),
            );
            self.order@ = ord1;
            assert forall|x: usize| x < n - 1 implies ord1.contains(x) by {
                if x == t && t != last {
                    assert(ord1[j] == x);
                } else {
                    assert(ord0.contains(x));
                    assert(exists|k: int| 0 <= k < n && ord0[k] == x);
                    let k = choose|k: int| 0 <= k < n && ord0[k] == x;
                    assert(k != n - 1);
                    assert(ord1[k] == x);
                }
            };
            assert(self.wf());
            assert(self@ =~= old(self)@.drop_last());
        }
        Some(node.elem)
    }

    /// A read-only view of the front payload, or `None` when the list is
    /// empty.  The list is not changed.
    pub fn peek_front(&self) -> (r: Option<&T>)
        requires
            self.wf(),
        ensures
            self@.len() == 0 ==> r.is_none(),
            self@.len() > 0 ==> r.is_some() && *r.unwrap() == self@[0],
    {
        match self.head {
            None => None,
            Some(h) => {
                proof {
                    assert(self.order@[0] == h);
                }
                Some(&self.nodes[h].elem)
            },
        }
    }

    /// A read-only view of the back payload, or `None` when the list is
    /// empty.  The list is not changed.
    pub fn peek_back(&self) -> (r: Option<&T>)
        requires
            self.wf(),
        ensures
            self@.len() == 0 ==> r.is_none(),
            self@.len() > 0 ==> r.is_some() && *r.unwrap() == self@.last(),
    {
        match self.tail {
            None => None,
            Some(t) => {
                proof {
                    assert(self.order@[self.order@.len() - 1] == t);
                }
                Some(&self.nodes[t].elem)
            },
        }
    }

    /// An exclusive view of the front payload, or `None` when the list is
    /// empty.  Whatever the caller writes through the view becomes the new
    /// front payload; the rest of the list is unchanged.
    pub fn peek_front_mut(&mut self) -> (r: Option<&mut T>)
        requires
            old(self).wf(),
        ensures
            final(self).wf(),
            old(self)@.len() == 0 ==> r.is_none() && *final(self) == *old(self),
            old(self)@.len() > 0 ==> r.is_some() && *r.unwrap() == old(self)@[0]
                && final(self)@ =~= old(self)@.update(0, *final(r.unwrap())),
    {
        match self.head {
            None => None,
            Some(h) => {
                proof {
                    assert(self.order@[0] == h);
                }
                Some(&mut self.nodes[h].elem)
            },
        }
    }

    /// An exclusive view of the back payload, or `None` when the list is
    /// empty.  Whatever the caller writes through the view becomes the new
    /// back payload; the rest of the list is unchanged.
    pub fn peek_back_mut(&mut self) -> (r: Option<&mut T>)
        requires
            old(self).wf(),
        ensures
            final(self).wf(),
            old(self)@.len() == 0 ==> r.is_none() && *final(self) == *old(self),
            old(self)@.len() > 0 ==> r.is_some() && *r.unwrap() == old(self)@.last()
                && final(self)@ =~= old(self)@.update(old(self)@.len() - 1, *final(r.unwrap())),
    {
        match self.tail {
            None => None,
            Some(t) => {
                proof {
                    assert(self.order@[self.order@.len() - 1] == t);
                }
                Some(&mut self.nodes[t].elem)
            },
        }
    }

    /// Turn the list into a consuming iterator over its elements.
    pub fn into_iter(self) -> (it: IntoIter<T>)
        requires
            self.wf(),
        ensures
            it.wf(),
            it@ == self@,
    {
        IntoIter(self)
    }

    /// A borrowing iterator over the payloads, front to back.
    pub fn iter<'a>(&'a self) -> (it: Iter<'a, T>)
        requires
            self.wf(),
        ensures
            it.wf(),
            it.remaining() == self@,
    {
        let it = Iter { list: self, cur: self.head, pos: Ghost(0) };
        proof {
            assert(it.remaining() =~= self@);
        }
        it
    }
}

/// A consuming bidirectional iterator: it owns the list and removes an
/// element on every step, from the front via [`IntoIter::next`] and from the
/// back via [`IntoIter::next_back`].  The two cursors converge; once the
/// list is exhausted, both keep yielding `None`.
pub struct IntoIter<T>(pub(crate) List<T>);

impl<T> View for IntoIter<T> {
    type V = Seq<T>;

    /// The elements not yet consumed, front to back.
    closed spec fn view(&self) -> Seq<T> {
        self.0@
    }
}

impl<T> IntoIter<T> {
    /// The iterator's invariant: the list it owns is well formed.
    pub closed spec fn wf(&self) -> bool {
        self.0.wf()
    }

    /// Consume and return the front-most remaining element, or `None` once
    /// the iterator is exhausted.
    pub fn next(&mut self) -> (r: Option<T>)
        requires
            old(self).wf(),
        ensures
            final(self).wf(),
            old(self)@.len() == 0 ==> r.is_none() && final(self)@ == old(self)@,
            old(self)@.len() > 0 ==> r == Some(old(self)@[0]) && final(self)@
                == old(self)@.drop_first(),
    {
        self.0.pop_front()
    }

    /// Consume and return the back-most remaining element, or `None` once
    /// the iterator is exhausted.
    pub fn next_back(&mut self) -> (r: Option<T>)
        requires
            old(self).wf(),
        ensures
            final(self).wf(),
            old(self)@.len() == 0 ==> r.is_none() && final(self)@ == old(self)@,
            old(self)@.len() > 0 ==> r == Some(old(self)@.last()) && final(self)@
                == old(self)@.drop_last(),
    {
        self.0.pop_back()
    }
}

/// A borrowing forward iterator: it yields read-only views of the payloads
/// from front to back while the list keeps ownership of every node.  Its
/// state is the arena index of the node not yet visited.
pub struct Iter<'a, T> {
    pub(crate) list: &'a List<T>,
    pub(crate) cur: Option<usize>,
    pub(crate) pos: Ghost<int>,
}

impl<'a, T> Iter<'a, T> {
    /// The iterator's invariant: the list is well formed, the ghost position
    /// lies within it, and `cur` is the arena index of the node at that
    /// position (or `None` past the end).
    pub closed spec fn wf(&self) -> bool {
        &&& self.list.wf()
        &&& 0 <= self.pos@ <= self.list@.len()
        &&& self.cur == (if self.pos@ == self.list@.len() {
            None::<usize>
        } else {
            Some(self.list.order@[self.pos@])
        })
    }

    /// The elements not yet visited, front to back.
    pub closed spec fn remaining(&self) -> Seq<T> {
        self.list@.skip(self.pos@)
    }

    /// A read-only view of the next unvisited payload, advancing the
    /// iterator, or `None` once every element has been visited.  The list
    /// itself is never changed.
    pub fn next(&mut self) -> (r: Option<&'a T>)
        requires
            old(self).wf(),
        ensures
            final(self).wf(),
            old(self).remaining().len() == 0 ==> r.is_none() && final(self).remaining()
                == old(self).remaining(),
            old(self).remaining().len() > 0 ==> r.is_some() && *r.unwrap()
                == old(self).remaining()[0] && final(self).remaining()
                == old(self).remaining().drop_first(),
    {
        match self.cur {
            None => None,
            Some(c) => {
                proof {
                    assert(self.list.order@[self.pos@] == c);
                }
                let r = &self.list.nodes[c].elem;
                self.cur = self.list.nodes[c].next;
                proof {
                    self.pos@ = self.pos@ + 1;
                    assert(self.remaining() =~= old(self).remaining().drop_first());
                }
                Some(r)
            },
        }
    }
}

} // verus!
