//! A persistent indexed vector kept as a 32-ary trie.
//!
//! Index `i` is found by taking five bits of `i` per level, most significant
//! group first. Appending copies only the nodes on the path to the new slot;
//! every other subtree is shared with the vector appended to.
use std::rc::Rc;
use vstd::prelude::*;

verus! {

/// The slot that `index` takes at the level that consumes bits from `shift`
/// upwards.
pub open spec fn digit(index: u32, shift: u32) -> u32 {
    (index >> shift) & 31u32
}

/// `j` and `i` agree on every bit above the level at `shift`, so the node
/// at that level that holds one of them would hold the other.
pub open spec fn same_above(j: u32, i: u32, shift: u32) -> bool {
    shift >= 27 || (j >> ((shift + 5) as u32)) == (i >> ((shift + 5) as u32))
}

proof fn lemma_digit_below(j: u32, i: u32, s: u32)
    requires
        5 <= s <= 30,
        same_above(j, i, s),
        digit(j, s) == digit(i, s),
    ensures
        same_above(j, i, (s - 5) as u32),
{
    assert((s >= 27 || (j >> ((s + 5) as u32)) == (i >> ((s + 5) as u32))) && ((j >> s) & 31u32) == ((i
        >> s) & 31u32) && 5 <= s <= 30 ==> (j >> s) == (i >> s)) by (bit_vector);
}

proof fn lemma_digit_last(j: u32, i: u32)
    requires
        same_above(j, i, 0),
        digit(j, 0) == digit(i, 0),
    ensures
        j == i,
{
    assert((j >> 5u32) == (i >> 5u32) && (j >> 0u32) & 31u32 == (i >> 0u32) & 31u32 ==> j == i)
        by (bit_vector);
}

proof fn lemma_digit_range(index: u32, shift: u32)
    ensures
        digit(index, shift) < 32,
{
    assert((index >> shift) & 31u32 < 32) by (bit_vector);
}

enum Tree32<T> {
    Root([Option<Rc<Tree32<T>>>; 32]),
    Leaf(T),
}

impl<T> Tree32<T> {
    /// A branch none of whose slots is filled.
    closed spec fn is_empty_root(self) -> bool {
        match self {
            Tree32::Root(children) => forall|i: int| 0 <= i < 32 ==> (#[trigger] children@[i]).is_none(),
            Tree32::Leaf(_) => false,
        }
    }

    /// The value this node holds at `index`, reading it as a node at the level
    /// that consumes bits from `shift` upwards.
    closed spec fn get_spec(self, shift: u32, index: u32) -> Option<T>
        decreases shift,
    {
        match self {
            Tree32::Leaf(_) => None,
            Tree32::Root(children) => match children@[digit(index, shift) as int] {
                None => None,
                Some(c) => if shift == 0 {
                    match *c {
                        Tree32::Leaf(t) => Some(t),
                        Tree32::Root(_) => None,
                    }
                } else if shift >= 5 {
                    (*c).get_spec((shift - 5) as u32, index)
                } else {
                    None
                },
            },
        }
    }

    /// A branch whose filled slots hold branches one level down, and leaves at
    /// the lowest level.
    closed spec fn wf_at(self, shift: u32) -> bool
        decreases shift,
    {
        match self {
            Tree32::Leaf(_) => false,
            Tree32::Root(children) => forall|i: int|
                0 <= i < 32 ==> match #[trigger] children@[i] {
                    None => true,
                    Some(c) => if shift == 0 {
                        (*c) is Leaf
                    } else {
                        shift >= 5 && (*c).wf_at((shift - 5) as u32)
                    },
                },
        }
    }

    proof fn lemma_empty_root(&self, shift: u32, index: u32)
        requires
            self.is_empty_root(),
        ensures
            self.get_spec(shift, index).is_none(),
            self.wf_at(shift),
    {
        lemma_digit_range(index, shift);
    }

    fn empty_children() -> (c: [Option<Rc<Tree32<T>>>; 32])
        ensures
            forall|i: int| 0 <= i < 32 ==> (#[trigger] c@[i]).is_none(),
    {
        [
            None, None, None, None, None, None, None, None, None, None, None, None, None, None, None,
            None, None, None, None, None, None, None, None, None, None, None, None, None, None, None,
            None, None,
        ]
    }

    fn new() -> (r: Rc<Tree32<T>>)
        ensures
            r.is_empty_root(),
    {
        Rc::new(Tree32::Root(Tree32::empty_children()))
    }

    fn get_or_create_subtree(children: &[Option<Rc<Tree32<T>>>; 32], i: u32) -> (r: Rc<Tree32<T>>)
        requires
            i < 32,
        ensures
            children@[i as int] matches Some(c) ==> r == c,
            children@[i as int].is_none() ==> r.is_empty_root(),
    {
        match &children[i as usize] {
            Some(c) => c.clone(),
            None => Tree32::new(),
        }
    }

    /// A copy of this branch with slot `index` set to `subtree`; the other
    /// slots are shared.
    fn replace_subtree(&self, index: u32, subtree: &Rc<Tree32<T>>) -> (r: Rc<Tree32<T>>)
        requires
            self is Root,
            index < 32,
        ensures
            *r is Root,
            (*r)->Root_0@ == self->Root_0@.update(index as int, Some(*subtree)),
    {
        match self {
            Tree32::Root(children) => {
                let mut copy = Tree32::empty_children();
                let mut i: usize = 0;
                while i < 32
                    invariant
                        i <= 32,
                        forall|j: int| 0 <= j < i ==> #[trigger] copy@[j] == children@[j],
                    decreases 32 - i,
                {
                    copy[i] = match &children[i] {
                        Some(c) => Some(c.clone()),
                        None => None,
                    };
                    i = i + 1;
                }
                copy[index as usize] = Some(subtree.clone());
                proof {
                    assert(copy@ =~= children@.update(index as int, Some(*subtree)));
                }
                Rc::new(Tree32::Root(copy))
            },
            // Ruled out by the precondition: only branches have slots.
            Tree32::Leaf(_) => Tree32::new(),
        }
    }

    /// A new root one level up whose first slot is `root`.
    fn deepen(root: &Rc<Tree32<T>>) -> (r: Rc<Tree32<T>>)
        ensures
            *r is Root,
            (*r)->Root_0@[0] == Some(*root),
            forall|i: int| 1 <= i < 32 ==> (#[trigger] (*r)->Root_0@[i]).is_none(),
    {
        let mut children = Tree32::empty_children();
        children[0] = Some(root.clone());
        Rc::new(Tree32::Root(children))
    }
}

impl<T> Tree32<T> {
    /// The value at `index`, reading this node at the level that consumes
    /// bits from `shift` upwards.
    fn lookup(&self, shift: u32, index: u32) -> (r: Option<&T>)
        requires
            shift <= 30,
        ensures
            r.is_some() == self.get_spec(shift, index).is_some(),
            r.is_some() ==> *r.unwrap() == self.get_spec(shift, index).unwrap(),
        decreases shift,
    {
        match self {
            Tree32::Root(children) => {
                let idx = (index >> shift) & 0b11111;
                proof {
                    lemma_digit_range(index, shift);
                }
                match &children[idx as usize] {
                    None => None,
                    Some(child) => {
                        if shift == 0 {
                            match &**child {
                                Tree32::Leaf(t) => Some(t),
                                Tree32::Root(_) => None,
                            }
                        } else if shift >= 5 {
                            child.lookup(shift - 5, index)
                        } else {
                            None
                        }
                    },
                }
            },
            Tree32::Leaf(_) => None,
        }
    }

    /// A copy of this node with `value` at `index`: only the nodes on the path
    /// to that slot are new, missing ones made on the way.
    fn update(&self, shift: u32, index: u32, value: &T) -> (r: Rc<Tree32<T>>)
        where T: Clone
        requires
            self.wf_at(shift),
            shift % 5 == 0,
            shift <= 30,
        ensures
            r.wf_at(shift),
            r.get_spec(shift, index) matches Some(x) && cloned(*value, x),
            forall|j: u32|
                j != index && same_above(j, index, shift) ==> #[trigger] r.get_spec(shift, j)
                    == self.get_spec(shift, j),
        decreases shift,
    {
        match self {
            Tree32::Root(children) => {
                let idx = (index >> shift) & 0b11111;
                proof {
                    lemma_digit_range(index, shift);
                }
                if shift > 0 {
                    assert(shift >= 5);
                    let sub = Tree32::get_or_create_subtree(children, idx);
                    proof {
                        if children@[idx as int].is_none() {
                            sub.lemma_empty_root((shift - 5) as u32, 0);
                        }
                    }
                    let subtree = sub.update(shift - 5, index, value);
                    let r = self.replace_subtree(idx, &subtree);
                    proof {
                        assert forall|j: u32|
                            j != index && same_above(j, index, shift) implies #[trigger] r.get_spec(shift, j)
                                == self.get_spec(shift, j) by {
                            lemma_digit_range(j, shift);
                            if digit(j, shift) == idx {
                                lemma_digit_below(j, index, shift);
                                if children@[idx as int].is_none() {
                                    sub.lemma_empty_root((shift - 5) as u32, j);
                                }
                                assert(r.get_spec(shift, j) == subtree.get_spec((shift - 5) as u32, j));
                                assert(subtree.get_spec((shift - 5) as u32, j) == sub.get_spec((shift - 5) as u32, j));
                            } else {
                                assert((*r)->Root_0@[digit(j, shift) as int] == children@[digit(j, shift) as int]);
                            }
                        }
                        assert forall|i: int| 0 <= i < 32 implies match #[trigger] (*r)->Root_0@[i] {
                            None => true,
                            Some(c) => if shift == 0 {
                                (*c) is Leaf
                            } else {
                                shift >= 5 && (*c).wf_at((shift - 5) as u32)
                            },
                        } by {
                            if i != idx as int {
                                assert((*r)->Root_0@[i] == children@[i]);
                            }
                        }
                    }
                    r
                } else {
                    let leaf = Rc::new(Tree32::Leaf(value.clone()));
                    let r = self.replace_subtree(idx, &leaf);
                    proof {
                        assert forall|j: u32|
                            j != index && same_above(j, index, shift) implies #[trigger] r.get_spec(shift, j)
                                == self.get_spec(shift, j) by {
                            lemma_digit_range(j, shift);
                            if digit(j, shift) == idx {
                                lemma_digit_last(j, index);
                            }
                        }
                        assert forall|i: int| 0 <= i < 32 implies match #[trigger] (*r)->Root_0@[i] {
                            None => true,
                            Some(c) => if shift == 0 {
                                (*c) is Leaf
                            } else {
                                shift >= 5 && (*c).wf_at((shift - 5) as u32)
                            },
                        } by {
                            if i != idx as int {
                                assert((*r)->Root_0@[i] == children@[i]);
                            }
                        }
                    }
                    r
                }
            },
            // Ruled out by the precondition: only branches have slots.
            Tree32::Leaf(_) => Tree32::new(),
        }
    }
}

proof fn lemma_zero_shift(shift: u32)
    ensures
        (0u32 >> shift) == 0,
{
    assert((0u32 >> shift) == 0) by (bit_vector);
}

/// Where the trie has room for one more slot at its current depth.
proof fn lemma_append_in_place(j: u32, size: u32, shift: u32)
    requires
        shift <= 30,
        j < size,
        ((size - 1) as u32 >> shift) < 32,
        (size >> shift) != 32,
    ensures
        (size >> shift) < 32,
        same_above(j, size, shift),
{
    assert(shift <= 30 && j < size && ((size - 1) as u32 >> shift) < 32 && (size >> shift) != 32
        ==> (size >> shift) < 32 && (shift >= 27 || (j >> ((shift + 5) as u32)) == (size >> ((shift
        + 5) as u32)))) by (bit_vector);
}

/// Where the trie is full at its current depth and gains a level.
proof fn lemma_append_deepened(j: u32, size: u32, shift: u32)
    requires
        shift <= 30,
        shift % 5 == 0,
        size == 0 || ((size - 1) as u32 >> shift) < 32,
        (size >> shift) == 32,
    ensures
        shift <= 25,
        (size >> ((shift + 5) as u32)) < 32,
        size >= (1u32 << ((shift + 5) as u32)),
        j < size ==> digit(j, (shift + 5) as u32) == 0,
        j < size ==> same_above(j, size, (shift + 5) as u32),
{
    assert(shift <= 30 && (size >> shift) == 32 ==> shift < 27) by (bit_vector);
    assert(shift <= 25 && (size >> shift) == 32 ==> size >= (1u32 << ((shift + 5) as u32)))
        by (bit_vector);
    assert(shift <= 25 && (size == 0 || ((size - 1) as u32 >> shift) < 32) && (size >> shift) == 32
        ==> (size >> ((shift + 5) as u32)) < 32 && (j < size ==> ((j >> ((shift + 5) as u32))
        & 31u32) == 0 && ((shift + 5) as u32 >= 27 || (j >> ((shift + 10) as u32)) == (size >> ((
        shift + 10) as u32))))) by (bit_vector);
}

/// A persistent vector: `append` returns a new vector and leaves this one as
/// it was.
pub struct Vector<T> {
    root: Rc<Tree32<T>>,
    size: u32,
    shift: u32,
}

impl<T> Vector<T> {
    /// The root is a branch `shift / 5` levels above the leaves, with room
    /// for every index below `size`, and each such index holds a value; the
    /// trie is no deeper than its values need.
    pub closed spec fn wf(self) -> bool {
        &&& self.shift % 5 == 0
        &&& self.shift <= 30
        &&& self.root.wf_at(self.shift)
        &&& (self.size == 0 || ((self.size - 1) as u32 >> self.shift) < 32)
        &&& (self.shift == 0 || self.size > (1u32 << self.shift))
        &&& forall|i: u32| i < self.size ==> (#[trigger] self.root.get_spec(self.shift, i)).is_some()
    }
}

impl<T> Vector<T> {
    /// The number of index bits consumed above the leaf level: five per level
    /// of branches above the lowest one.
    pub closed spec fn level_shift(self) -> u32 {
        self.shift
    }
}

impl<T> View for Vector<T> {
    type V = Seq<T>;

    closed spec fn view(&self) -> Seq<T> {
        Seq::new(self.size as nat, |i: int| self.root.get_spec(self.shift, i as u32).unwrap())
    }
}

impl<T> Vector<T> {
    /// The empty vector.
    pub fn new() -> (v: Vector<T>)
        ensures
            v.wf(),
            v@ == Seq::<T>::empty(),
    {
        let v = Vector { root: Tree32::new(), size: 0, shift: 0 };
        proof {
            v.root.lemma_empty_root(0, 0);
            assert(v@ =~= Seq::<T>::empty());
        }
        v
    }

    /// The number of values.
    pub fn size(&self) -> (n: u32)
        requires
            self.wf(),
        ensures
            n == self@.len(),
    {
        self.size
    }

    /// The value at `index`, or `None` where `index` is out of bounds.
    pub fn get(&self, index: u32) -> (r: Option<&T>)
        requires
            self.wf(),
        ensures
            r.is_some() == (index < self@.len()),
            r.is_some() ==> *r.unwrap() == self@[index as int],
    {
        if index < self.size {
            self.root.lookup(self.shift, index)
        } else {
            None
        }
    }

    /// A new vector with a clone of `value` after the values of this one.
    pub fn append(&self, value: &T) -> (v: Vector<T>)
        where T: Clone
        requires
            self.wf(),
            self@.len() < u32::MAX,
        ensures
            v.wf(),
            v@.len() == self@.len() + 1,
            v@.drop_last() == self@,
            cloned(*value, v@.last()),
            v.level_shift() == if (self@.len() as u32) >> self.level_shift() == 32 {
                (self.level_shift() + 5) as u32
            } else {
                self.level_shift()
            },
    {
        let ghost old_view = self@;
        if self.size >> self.shift == 32 {
            proof {
                lemma_append_deepened(0, self.size, self.shift);
            }
            let root = Tree32::deepen(&self.root);
            let shift = self.shift + 5;
            let root = root.update(shift, self.size, value);
            let v = Vector { root: root, size: self.size + 1, shift: shift };
            proof {
                assert forall|j: u32| j < self.size implies #[trigger] v.root.get_spec(shift, j)
                    == self.root.get_spec(self.shift, j) by {
                    lemma_append_deepened(j, self.size, self.shift);
                }
                assert forall|i: u32| i < v.size implies (#[trigger] v.root.get_spec(v.shift, i)).is_some() by {
                    if i < self.size {
                        assert(v.root.get_spec(shift, i) == self.root.get_spec(self.shift, i));
                    }
                }
                assert(v@.drop_last() =~= old_view);
            }
            v
        } else {
            let root = self.root.update(self.shift, self.size, value);
            let v = Vector { root: root, size: self.size + 1, shift: self.shift };
            proof {
                if self.size > 0 {
                    lemma_append_in_place(0, self.size, self.shift);
                } else {
                    lemma_zero_shift(self.shift);
                }
                assert forall|j: u32| j < self.size implies #[trigger] v.root.get_spec(v.shift, j)
                    == self.root.get_spec(self.shift, j) by {
                    lemma_append_in_place(j, self.size, self.shift);
                }
                assert forall|i: u32| i < v.size implies (#[trigger] v.root.get_spec(v.shift, i)).is_some() by {
                    if i < self.size {
                        assert(v.root.get_spec(v.shift, i) == self.root.get_spec(self.shift, i));
                    }
                }
                assert(v@.drop_last() =~= old_view);
            }
            v
        }
    }

    /// The vector of clones of `items`, in order, built by appending each.
    pub fn from_slice(items: &[T]) -> (v: Vector<T>)
        where T: Clone
        requires
            items@.len() < u32::MAX,
        ensures
            v.wf(),
            v@.len() == items@.len(),
            forall|i: int| 0 <= i < items@.len() ==> cloned(items@[i], #[trigger] v@[i]),
    {
        let mut v = Vector::new();
        let mut i: usize = 0;
        while i < items.len()
            invariant
                i <= items@.len() < u32::MAX,
                v.wf(),
                v@.len() == i,
                forall|j: int| 0 <= j < i ==> cloned(items@[j], #[trigger] v@[j]),
            decreases items@.len() - i,
        {
            let next = v.append(&items[i]);
            proof {
                assert forall|j: int| 0 <= j < i + 1 implies cloned(items@[j], #[trigger] next@[j]) by {
                    if j < i {
                        assert(next@[j] == next@.drop_last()[j]);
                    }
                }
            }
            v = next;
            i = i + 1;
        }
        v
    }
}

} // verus!
