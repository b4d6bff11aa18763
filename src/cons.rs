//! A persistent singly linked list: `cons` shares the whole list it extends.
use std::rc::Rc;
use vstd::prelude::*;

verus! {

enum Node<T> {
    Cons(T, Rc<Node<T>>),
    Nil,
}

impl<T> Node<T> {
    /// The values from this node to the end of the list.
    closed spec fn values(&self) -> Seq<T>
        decreases self,
    {
        match self {
            Node::Cons(t, tail) => seq![*t] + tail.values(),
            Node::Nil => Seq::empty(),
        }
    }

    fn nil() -> (r: Rc<Node<T>>)
        ensures
            r.values() == Seq::<T>::empty(),
    {
        Rc::new(Node::Nil)
    }

    fn cons(tail: Rc<Node<T>>, head: T) -> (r: Rc<Node<T>>)
        ensures
            r.values() == seq![head] + tail.values(),
    {
        Rc::new(Node::Cons(head, tail))
    }
}

/// A persistent list; cloning it shares every node.
pub struct List<T>(Rc<Node<T>>);

impl<T> View for List<T> {
    type V = Seq<T>;

    closed spec fn view(&self) -> Seq<T> {
        self.0.values()
    }
}

impl<T> Clone for List<T> {
    /// Shares the nodes: the copy is the same list.
    fn clone(&self) -> (r: Self)
        ensures
            r@ == self@,
    {
        List(self.0.clone())
    }
}

/// Walks a list from the front, handing out references to its values.
pub struct ListIterator<'a, T>(&'a Node<T>);

impl<'a, T> View for ListIterator<'a, T> {
    type V = Seq<T>;

    /// The values not handed out yet.
    closed spec fn view(&self) -> Seq<T> {
        self.0.values()
    }
}

impl<'a, T> ListIterator<'a, T> {
    /// The next value, if any, after which the iterator moves past it.
    pub fn next(&mut self) -> (r: Option<&'a T>)
        ensures
            old(self)@.len() == 0 ==> r.is_none() && final(self)@ == old(self)@,
            old(self)@.len() > 0 ==> r.is_some() && *r.unwrap() == old(self)@[0] && final(self)@
                == old(self)@.drop_first(),
    {
        match self.0 {
            Node::Cons(t, rest) => {
                proof {
                    assert(old(self)@.drop_first() =~= rest.values());
                }
                self.0 = &**rest;
                Some(t)
            },
            Node::Nil => None,
        }
    }
}

impl<T> List<T> {
    /// The empty list.
    pub fn new() -> (l: List<T>)
        ensures
            l@ == Seq::<T>::empty(),
    {
        List(Node::nil())
    }

    /// A list of clones of `xs`, in the same order.
    pub fn from_slice(xs: &[T]) -> (l: List<T>)
        where T: Clone
        ensures
            l@.len() == xs@.len(),
            forall|i: int| 0 <= i < xs@.len() ==> cloned(xs@[i], #[trigger] l@[i]),
    {
        let mut node = Node::nil();
        let mut i: usize = xs.len();
        while i > 0
            invariant
                i <= xs@.len(),
                node.values().len() == xs@.len() - i,
                forall|k: int| 0 <= k < node.values().len() ==> cloned(xs@[i + k], #[trigger] node.values()[k]),
            decreases i,
        {
            i = i - 1;
            let ghost before = node.values();
            let c = xs[i].clone();
            node = Node::cons(node, c);
            proof {
                assert forall|k: int| 0 <= k < node.values().len() implies cloned(xs@[i + k], #[trigger] node.values()[k]) by {
                    if k > 0 {
                        assert(node.values()[k] == before[k - 1]);
                        assert(xs@[i + k] == xs@[(i + 1) + (k - 1)]);
                    } else {
                        assert(node.values()[0] == c);
                    }
                }
            }
        }
        let l = List(node);
        assert forall|j: int| 0 <= j < xs@.len() implies cloned(xs@[j], #[trigger] l@[j]) by {
            assert(xs@[j] == xs@[0 + j]);
        }
        l
    }

    /// An iterator over references to the values, front first.
    pub fn iter(&self) -> (it: ListIterator<'_, T>)
        ensures
            it@ == self@,
    {
        ListIterator(&*self.0)
    }

    /// The first value and the rest of the list, or `None` for the empty
    /// list.
    pub fn head_tail(&self) -> (r: Option<(&T, List<T>)>)
        ensures
            self@.len() == 0 ==> r.is_none(),
            self@.len() > 0 ==> (r matches Some(p) && *p.0 == self@[0] && p.1@ == self@.drop_first()),
    {
        match &*self.0 {
            Node::Cons(t, tail) => {
                proof {
                    assert(self@.drop_first() =~= tail.values());
                }
                Some((t, List(tail.clone())))
            },
            Node::Nil => None,
        }
    }

    /// The first value, or `None` for the empty list.
    pub fn head(&self) -> (r: Option<&T>)
        ensures
            self@.len() == 0 ==> r.is_none(),
            self@.len() > 0 ==> (r matches Some(h) && *h == self@[0]),
    {
        match &*self.0 {
            Node::Cons(t, _) => Some(t),
            Node::Nil => None,
        }
    }

    /// The list without its first value, or `None` for the empty list.
    pub fn tail(&self) -> (r: Option<List<T>>)
        ensures
            self@.len() == 0 ==> r.is_none(),
            self@.len() > 0 ==> (r matches Some(t) && t@ == self@.drop_first()),
    {
        match &*self.0 {
            Node::Cons(_, tail) => {
                proof {
                    assert(self@.drop_first() =~= tail.values());
                }
                Some(List(tail.clone()))
            },
            Node::Nil => None,
        }
    }

    /// A new list with `head` in front of this one, which it shares.
    pub fn cons(&self, head: T) -> (l: List<T>)
        ensures
            l@ == seq![head] + self@,
    {
        let tail = self.0.clone();
        List(Node::cons(tail, head))
    }

    /// A list of clones of the values, last first.
    pub fn reverse(&self) -> (l: List<T>)
        where T: Clone
        ensures
            l@.len() == self@.len(),
            forall|i: int| 0 <= i < self@.len() ==> cloned(self@[self@.len() - 1 - i], #[trigger] l@[i]),
    {
        let mut node = Node::nil();
        let mut it = self.iter();
        let ghost n = self@.len();
        loop
            invariant
                it@.len() + node.values().len() == n,
                forall|k: int| 0 <= k < it@.len() ==> #[trigger] it@[k] == self@[node.values().len() + k],
                forall|i: int| 0 <= i < node.values().len() ==> cloned(self@[node.values().len() - 1 - i], #[trigger] node.values()[i]),
            ensures
                node.values().len() == n,
                forall|i: int| 0 <= i < node.values().len() ==> cloned(self@[node.values().len() - 1 - i], #[trigger] node.values()[i]),
            decreases it@.len(),
        {
            let ghost rest = it@;
            match it.next() {
                None => break,
                Some(t) => {
                    let ghost before = node.values();
                    node = Node::cons(node, t.clone());
                    proof {
                        let m = before.len();
                        assert(rest[0] == self@[m as int + 0]);
                        assert forall|i: int| 0 <= i < node.values().len() implies cloned(self@[node.values().len() - 1 - i], #[trigger] node.values()[i]) by {
                            if i > 0 {
                                assert(node.values()[i] == before[i - 1]);
                            }
                        }
                        assert forall|k: int| 0 <= k < it@.len() implies #[trigger] it@[k] == self@[node.values().len() + k] by {
                            assert(it@[k] == rest[k + 1]);
                        }
                    }
                },
            }
        }
        List(node)
    }
}

} // verus!
