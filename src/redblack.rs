//! A persistent ordered map kept as a red-black tree.
//!
//! Every update returns a new tree; nodes are shared through `Rc` and never
//! change, so earlier versions stay valid. The contents of a tree are modelled
//! by the sequence of its entries in key order (`entries`), and the map that
//! this sequence denotes (`view`).
use std::cmp::Ordering;
use std::rc::Rc;
use vstd::laws_cmp::obeys_cmp;
use vstd::laws_eq::obeys_concrete_eq;
use vstd::prelude::*;
use vstd::std_specs::cmp::OrdSpec;

verus! {

// ---------------------------------------------------------------------------
// Keys
// ---------------------------------------------------------------------------

/// `K`'s `Ord` is a strict total order whose `Equal` is equality of values.
pub open spec fn total_order<K: Ord>() -> bool {
    obeys_cmp::<K>() && obeys_concrete_eq::<K>()
}

/// `a` comes strictly before `b`.
pub open spec fn key_lt<K: Ord>(a: K, b: K) -> bool {
    a.cmp_spec(&b) == Ordering::Less
}

proof fn lemma_total_order<K: Ord>()
    requires
        total_order::<K>(),
    ensures
        K::obeys_cmp_spec(),
        forall|a: K, b: K| #[trigger] a.cmp_spec(&b) == Ordering::Equal <==> a == b,
        forall|a: K, b: K| #[trigger] a.cmp_spec(&b) == Ordering::Less <==> b.cmp_spec(&a) == Ordering::Greater,
        forall|a: K, b: K, c: K| #[trigger] key_lt(a, b) && #[trigger] key_lt(b, c) ==> key_lt(a, c),
{
    reveal(vstd::laws_cmp::obeys_cmp_ord);
    reveal(vstd::laws_cmp::obeys_partial_cmp_spec_properties);
    reveal(vstd::laws_cmp::obeys_cmp_partial_ord);
    reveal(vstd::laws_eq::obeys_concrete_eq);
    reveal(vstd::laws_eq::obeys_eq_spec_properties);
}

// ---------------------------------------------------------------------------
// Sequences of entries in key order
// ---------------------------------------------------------------------------

/// Keys strictly ascend along `s`.
pub open spec fn sorted_keys<K: Ord, V>(s: Seq<(K, V)>) -> bool {
    forall|i: int, j: int| 0 <= i < j < s.len() ==> key_lt(#[trigger] s[i].0, #[trigger] s[j].0)
}

/// Every key of `s` comes before `x`.
pub open spec fn all_below<K: Ord, V>(s: Seq<(K, V)>, x: K) -> bool {
    forall|i: int| 0 <= i < s.len() ==> key_lt(#[trigger] s[i].0, x)
}

/// Every key of `s` comes after `x`.
pub open spec fn all_above<K: Ord, V>(s: Seq<(K, V)>, x: K) -> bool {
    forall|i: int| 0 <= i < s.len() ==> key_lt(x, #[trigger] s[i].0)
}

/// The map that a sequence of entries denotes; a later entry wins over an
/// earlier one with the same key.
pub open spec fn map_of<K, V>(s: Seq<(K, V)>) -> Map<K, V>
    decreases s.len(),
{
    if s.len() == 0 {
        Map::empty()
    } else {
        map_of(s.drop_last()).insert(s.last().0, s.last().1)
    }
}

proof fn lemma_map_of_concat<K, V>(a: Seq<(K, V)>, b: Seq<(K, V)>)
    ensures
        map_of(a + b) == map_of(a).union_prefer_right(map_of(b)),
    decreases b.len(),
{
    if b.len() == 0 {
        assert(a + b =~= a);
        assert(map_of(a).union_prefer_right(map_of(b)) =~= map_of(a));
    } else {
        assert((a + b).drop_last() =~= a + b.drop_last());
        lemma_map_of_concat(a, b.drop_last());
        assert(map_of(a + b) =~= map_of(a).union_prefer_right(map_of(b)));
    }
}

proof fn lemma_map_of_key<K, V>(s: Seq<(K, V)>, k: K)
    requires
        map_of(s).contains_key(k),
    ensures
        exists|i: int| 0 <= i < s.len() && #[trigger] s[i].0 == k,
    decreases s.len(),
{
    if s.last().0 != k {
        lemma_map_of_key(s.drop_last(), k);
        let i = choose|i: int| 0 <= i < s.drop_last().len() && #[trigger] s.drop_last()[i].0 == k;
        assert(s[i].0 == k);
    }
}

/// The map of a node's sequence: its left part, then its entry, then its
/// right part.
proof fn lemma_map_of_node<K, V>(a: Seq<(K, V)>, e: (K, V), b: Seq<(K, V)>)
    ensures
        map_of(a + seq![e] + b) == map_of(a).insert(e.0, e.1).union_prefer_right(map_of(b)),
{
    lemma_map_of_concat(a + seq![e], b);
    assert((a + seq![e]).drop_last() =~= a);
}

/// Every key that `s` carries is in its map.
proof fn lemma_map_of_has<K, V>(s: Seq<(K, V)>, i: int)
    requires
        0 <= i < s.len(),
    ensures
        map_of(s).contains_key(s[i].0),
    decreases s.len(),
{
    if i < s.len() - 1 {
        lemma_map_of_has(s.drop_last(), i);
    }
}

/// A key that no entry of `s` carries is not in its map.
proof fn lemma_map_of_absent<K, V>(s: Seq<(K, V)>, k: K)
    requires
        forall|i: int| 0 <= i < s.len() ==> #[trigger] s[i].0 != k,
    ensures
        !map_of(s).contains_key(k),
{
    if map_of(s).contains_key(k) {
        lemma_map_of_key(s, k);
    }
}

proof fn lemma_below_absent<K: Ord, V>(s: Seq<(K, V)>, x: K, k: K)
    requires
        total_order::<K>(),
        all_below(s, x),
        k == x || key_lt(x, k),
    ensures
        !map_of(s).contains_key(k),
{
    lemma_total_order::<K>();
    assert forall|i: int| 0 <= i < s.len() implies #[trigger] s[i].0 != k by {
        assert(key_lt(s[i].0, x));
        if s[i].0 == k {
            assert(k.cmp_spec(&k) == Ordering::Equal);
        }
    }
    lemma_map_of_absent(s, k);
}

proof fn lemma_above_absent<K: Ord, V>(s: Seq<(K, V)>, x: K, k: K)
    requires
        total_order::<K>(),
        all_above(s, x),
        k == x || key_lt(k, x),
    ensures
        !map_of(s).contains_key(k),
{
    lemma_total_order::<K>();
    assert forall|i: int| 0 <= i < s.len() implies #[trigger] s[i].0 != k by {
        assert(key_lt(x, s[i].0));
        if s[i].0 == k {
            assert(k.cmp_spec(&k) == Ordering::Equal);
        }
    }
    lemma_map_of_absent(s, k);
}

/// What a sorted node sequence `a + [e] + b` says of its parts.
proof fn lemma_sorted_split<K: Ord, V>(a: Seq<(K, V)>, e: (K, V), b: Seq<(K, V)>)
    requires
        sorted_keys(a + seq![e] + b),
    ensures
        sorted_keys(a),
        sorted_keys(b),
        all_below(a, e.0),
        all_above(b, e.0),
{
    let s = a + seq![e] + b;
    assert forall|i: int, j: int| 0 <= i < j < a.len() implies key_lt(#[trigger] a[i].0, #[trigger] a[j].0) by {
        assert(s[i] == a[i] && s[j] == a[j]);
    }
    assert forall|i: int, j: int| 0 <= i < j < b.len() implies key_lt(#[trigger] b[i].0, #[trigger] b[j].0) by {
        assert(s[a.len() + 1 + i] == b[i] && s[a.len() + 1 + j] == b[j]);
    }
    assert forall|i: int| 0 <= i < a.len() implies key_lt(#[trigger] a[i].0, e.0) by {
        assert(s[i] == a[i] && s[a.len() as int] == e);
    }
    assert forall|i: int| 0 <= i < b.len() implies key_lt(e.0, #[trigger] b[i].0) by {
        assert(s[a.len() + 1 + i] == b[i] && s[a.len() as int] == e);
    }
}

/// Joining two sorted sequences around a separating entry keeps keys sorted.
proof fn lemma_sorted_join<K: Ord, V>(a: Seq<(K, V)>, e: (K, V), b: Seq<(K, V)>)
    requires
        total_order::<K>(),
        sorted_keys(a),
        sorted_keys(b),
        all_below(a, e.0),
        all_above(b, e.0),
    ensures
        sorted_keys(a + seq![e] + b),
{
    lemma_total_order::<K>();
    let s = a + seq![e] + b;
    assert forall|i: int, j: int| 0 <= i < j < s.len() implies key_lt(#[trigger] s[i].0, #[trigger] s[j].0) by {
        let n = a.len() as int;
        if j < n {
            assert(s[i] == a[i] && s[j] == a[j]);
        } else if j == n {
            assert(s[i] == a[i]);
        } else if i < n {
            assert(s[i] == a[i] && s[j] == b[j - n - 1]);
            assert(key_lt(a[i].0, e.0) && key_lt(e.0, b[j - n - 1].0));
        } else if i == n {
            assert(s[j] == b[j - n - 1]);
        } else {
            assert(s[i] == b[i - n - 1] && s[j] == b[j - n - 1]);
        }
    }
}

proof fn lemma_bounds_concat<K: Ord, V>(a: Seq<(K, V)>, e: (K, V), b: Seq<(K, V)>, x: K)
    ensures
        all_below(a + seq![e] + b, x) <==> all_below(a, x) && key_lt(e.0, x) && all_below(b, x),
        all_above(a + seq![e] + b, x) <==> all_above(a, x) && key_lt(x, e.0) && all_above(b, x),
{
    let s = a + seq![e] + b;
    let n = a.len() as int;
    assert forall|i: int| 0 <= i < a.len() implies #[trigger] a[i] == s[i] by {}
    assert forall|i: int| 0 <= i < b.len() implies #[trigger] b[i] == s[n + 1 + i] by {}
    assert(s[n] == e);
    if all_below(a, x) && key_lt(e.0, x) && all_below(b, x) {
        assert forall|i: int| 0 <= i < s.len() implies key_lt(#[trigger] s[i].0, x) by {
            if i < n {
                assert(s[i] == a[i]);
            } else if i > n {
                assert(s[i] == b[i - n - 1]);
            }
        }
    }
    if all_above(a, x) && key_lt(x, e.0) && all_above(b, x) {
        assert forall|i: int| 0 <= i < s.len() implies key_lt(x, #[trigger] s[i].0) by {
            if i < n {
                assert(s[i] == a[i]);
            } else if i > n {
                assert(s[i] == b[i - n - 1]);
            }
        }
    }
}

proof fn lemma_seq_regroup<A>(p: Seq<A>, q: Seq<A>, r: Seq<A>, s: Seq<A>)
    ensures
        (p + q) + r + s == p + (q + r + s),
        p + q + (r + s) == (p + q + r) + s,
{
    assert((p + q) + r + s =~= p + (q + r + s));
    assert(p + q + (r + s) =~= (p + q + r) + s);
}

/// Joining `a x b` and `c y d` where the join of `b` and `c` came back as
/// the node `p z q`.
proof fn lemma_seq_split_middle<A>(
    a: Seq<A>,
    x: Seq<A>,
    b: Seq<A>,
    c: Seq<A>,
    y: Seq<A>,
    d: Seq<A>,
    p: Seq<A>,
    z: Seq<A>,
    q: Seq<A>,
)
    requires
        p + z + q == b + c,
    ensures
        (a + x + p) + z + (q + y + d) == (a + x + b) + (c + y + d),
{
    assert((a + x + p) + z + (q + y + d) =~= a + x + (p + z + q) + y + d);
    assert(a + x + (b + c) + y + d =~= (a + x + b) + (c + y + d));
}

/// Joining `a x b` and `c y d` around the join of `b` and `c`.
proof fn lemma_seq_keep_middle<A>(a: Seq<A>, x: Seq<A>, b: Seq<A>, c: Seq<A>, y: Seq<A>, d: Seq<A>)
    ensures
        a + x + ((b + c) + y + d) == (a + x + b) + (c + y + d),
{
    assert(a + x + ((b + c) + y + d) =~= (a + x + b) + (c + y + d));
}

/// Two sorted sequences on either side of a key concatenate to a sorted one.
proof fn lemma_sorted_append<K: Ord, V>(a: Seq<(K, V)>, b: Seq<(K, V)>, x: K)
    requires
        total_order::<K>(),
        sorted_keys(a),
        sorted_keys(b),
        all_below(a, x),
        all_above(b, x),
    ensures
        sorted_keys(a + b),
        forall|y: K| all_below(a, y) && all_below(b, y) ==> #[trigger] all_below(a + b, y),
        forall|y: K| all_above(a, y) && all_above(b, y) ==> #[trigger] all_above(a + b, y),
{
    lemma_total_order::<K>();
    let s = a + b;
    let n = a.len() as int;
    assert forall|i: int, j: int| 0 <= i < j < s.len() implies key_lt(#[trigger] s[i].0, #[trigger] s[j].0) by {
        if j < n {
            assert(s[i] == a[i] && s[j] == a[j]);
        } else if i < n {
            assert(s[i] == a[i] && s[j] == b[j - n]);
            assert(key_lt(a[i].0, x) && key_lt(x, b[j - n].0));
        } else {
            assert(s[i] == b[i - n] && s[j] == b[j - n]);
        }
    }
    assert forall|y: K| all_below(a, y) && all_below(b, y) implies #[trigger] all_below(a + b, y) by {
        assert forall|i: int| 0 <= i < s.len() implies key_lt(#[trigger] s[i].0, y) by {
            if i < n {
                assert(s[i] == a[i]);
            } else {
                assert(s[i] == b[i - n]);
            }
        }
    }
    assert forall|y: K| all_above(a, y) && all_above(b, y) implies #[trigger] all_above(a + b, y) by {
        assert forall|i: int| 0 <= i < s.len() implies key_lt(y, #[trigger] s[i].0) by {
            if i < n {
                assert(s[i] == a[i]);
            } else {
                assert(s[i] == b[i - n]);
            }
        }
    }
}

// ---------------------------------------------------------------------------
// The tree
// ---------------------------------------------------------------------------

enum Color {
    Red,
    Black,
}

struct Node<K, V> {
    color: Color,
    key: Rc<K>,
    value: Rc<V>,
    left: Tree<K, V>,
    right: Tree<K, V>,
}

/// A persistent ordered map from `K` to `V`: either empty or a shared,
/// immutable root node.
pub struct Tree<K, V>(Option<Rc<Node<K, V>>>);

impl<K, V> Tree<K, V> {
    pub closed spec fn spec_is_empty(self) -> bool {
        self.0.is_none()
    }

    pub closed spec fn spec_is_red(self) -> bool {
        self.0 matches Some(n) && n.color == Color::Red
    }

    closed spec fn spec_left(self) -> Tree<K, V> {
        self.0.unwrap().left
    }

    closed spec fn spec_right(self) -> Tree<K, V> {
        self.0.unwrap().right
    }

    closed spec fn spec_key(self) -> K {
        *self.0.unwrap().key
    }

    closed spec fn spec_value(self) -> V {
        *self.0.unwrap().value
    }

    /// The entries of the tree in in-order, that is in key order for a
    /// well-formed tree.
    pub closed spec fn entries(self) -> Seq<(K, V)>
        decreases self,
    {
        match self.0 {
            None => Seq::empty(),
            Some(n) => n.left.entries() + seq![(*n.key, *n.value)] + n.right.entries(),
        }
    }

    /// Number of black nodes on the leftmost path; empty trees count as none.
    pub closed spec fn black_height(self) -> nat
        decreases self,
    {
        match self.0 {
            None => 0,
            Some(n) => n.left.black_height() + if n.color == Color::Black { 1nat } else { 0nat },
        }
    }

    /// Every path from a node down to an empty subtree meets as many black
    /// nodes.
    pub closed spec fn balanced(self) -> bool
        decreases self,
    {
        match self.0 {
            None => true,
            Some(n) => {
                &&& n.left.black_height() == n.right.black_height()
                &&& n.left.balanced()
                &&& n.right.balanced()
            },
        }
    }

    /// No red node has a red child.
    pub closed spec fn red_ok(self) -> bool
        decreases self,
    {
        match self.0 {
            None => true,
            Some(n) => {
                &&& (n.color == Color::Red ==> !n.left.spec_is_red() && !n.right.spec_is_red())
                &&& n.left.red_ok()
                &&& n.right.red_ok()
            },
        }
    }

    /// No red node below the root has a red child: the root itself may be a
    /// red node with a red child.
    closed spec fn children_red_ok(self) -> bool {
        match self.0 {
            None => true,
            Some(n) => n.left.red_ok() && n.right.red_ok(),
        }
    }

    /// A measure that shrinks along every path from the root.
    closed spec fn height(self) -> nat
        decreases self,
    {
        match self.0 {
            None => 0,
            Some(n) => 1 + if n.left.height() > n.right.height() {
                n.left.height()
            } else {
                n.right.height()
            },
        }
    }

    closed spec fn is_black_node_spec(self) -> bool {
        !self.spec_is_empty() && !self.spec_is_red()
    }

    /// Both red-black invariants.
    pub open spec fn is_red_black(self) -> bool {
        self.red_ok() && self.balanced()
    }

    /// Keys ascend in order and the red-black invariants hold.
    pub open spec fn wf(self) -> bool
        where K: Ord
    {
        sorted_keys(self.entries()) && self.is_red_black()
    }
}

impl<K, V> Tree<K, V> {
    /// One level of the recursive definitions, at a non-empty tree.
    proof fn lemma_node(self)
        requires
            !self.spec_is_empty(),
        ensures
            self.entries() == self.spec_left().entries() + seq![(self.spec_key(), self.spec_value())]
                + self.spec_right().entries(),
            self.black_height() == self.spec_left().black_height() + if self.spec_is_red() {
                0nat
            } else {
                1nat
            },
            self.balanced() == (self.spec_left().black_height() == self.spec_right().black_height()
                && self.spec_left().balanced() && self.spec_right().balanced()),
            self.red_ok() == ((self.spec_is_red() ==> !self.spec_left().spec_is_red()
                && !self.spec_right().spec_is_red()) && self.spec_left().red_ok()
                && self.spec_right().red_ok()),
            self.children_red_ok() == (self.spec_left().red_ok() && self.spec_right().red_ok()),
    {
    }

    proof fn lemma_height(self)
        requires
            !self.spec_is_empty(),
        ensures
            self.spec_left().height() < self.height(),
            self.spec_right().height() < self.height(),
    {
    }
}

impl<K, V> View for Tree<K, V> {
    type V = Map<K, V>;

    open spec fn view(&self) -> Map<K, V> {
        map_of(self.entries())
    }
}

impl<K, V> Clone for Tree<K, V> {
    /// Shares the root: the copy is the same tree.
    fn clone(&self) -> (r: Self)
        ensures
            r == *self,
    {
        match &self.0 {
            None => Tree(None),
            Some(n) => Tree(Some(n.clone())),
        }
    }
}

impl<K, V> Tree<K, V> {
    fn wrap(node: Node<K, V>) -> (r: Self)
        ensures
            r.0 == Some(Rc::new(node)),
    {
        Tree(Some(Rc::new(node)))
    }

    fn black(k: Rc<K>, v: Rc<V>, left: Self, right: Self) -> (r: Self)
        ensures
            !r.spec_is_empty(),
            !r.spec_is_red(),
            r.spec_key() == *k,
            r.spec_value() == *v,
            r.spec_left() == left,
            r.spec_right() == right,
    {
        Tree::wrap(Node { color: Color::Black, key: k, value: v, left: left, right: right })
    }

    fn red(k: Rc<K>, v: Rc<V>, left: Self, right: Self) -> (r: Self)
        ensures
            !r.spec_is_empty(),
            r.spec_is_red(),
            r.spec_key() == *k,
            r.spec_value() == *v,
            r.spec_left() == left,
            r.spec_right() == right,
    {
        Tree::wrap(Node { color: Color::Red, key: k, value: v, left: left, right: right })
    }

    /// Empty trees count as black.
    fn is_black(&self) -> (r: bool)
        ensures
            r == !self.spec_is_red(),
    {
        match &self.0 {
            None => true,
            Some(node) => match node.color {
                Color::Black => true,
                Color::Red => false,
            },
        }
    }

    fn is_red(&self) -> (r: bool)
        ensures
            r == self.spec_is_red(),
    {
        match &self.0 {
            None => false,
            Some(node) => match node.color {
                Color::Red => true,
                Color::Black => false,
            },
        }
    }

    /// A non-empty tree whose root is black.
    fn is_black_node(&self) -> (r: bool)
        ensures
            r == self.is_black_node_spec(),
    {
        !self.is_empty() && self.is_black()
    }

    /// The same tree with a black root.
    fn to_black(&self) -> (r: Self)
        ensures
            r.spec_is_empty() == self.spec_is_empty(),
            !r.spec_is_red(),
            !self.spec_is_empty() ==> r.spec_key() == self.spec_key() && r.spec_value()
                == self.spec_value() && r.spec_left() == self.spec_left() && r.spec_right()
                == self.spec_right(),
            !self.spec_is_red() ==> r == *self,
    {
        match &self.0 {
            None => self.clone(),
            Some(node) => match node.color {
                Color::Red => Tree::black(
                    node.key.clone(),
                    node.value.clone(),
                    node.left.clone(),
                    node.right.clone(),
                ),
                Color::Black => self.clone(),
            },
        }
    }

    /// The same tree with a red root.
    fn to_red(&self) -> (r: Self)
        ensures
            r.spec_is_empty() == self.spec_is_empty(),
            !self.spec_is_empty() ==> r.spec_is_red(),
            !self.spec_is_empty() ==> r.spec_key() == self.spec_key() && r.spec_value()
                == self.spec_value() && r.spec_left() == self.spec_left() && r.spec_right()
                == self.spec_right(),
            self.spec_is_red() || self.spec_is_empty() ==> r == *self,
    {
        match &self.0 {
            None => self.clone(),
            Some(node) => match node.color {
                Color::Black => Tree::red(
                    node.key.clone(),
                    node.value.clone(),
                    node.left.clone(),
                    node.right.clone(),
                ),
                Color::Red => self.clone(),
            },
        }
    }

    fn left(&self) -> (r: Self)
        ensures
            !self.spec_is_empty() ==> r == self.spec_left(),
            self.spec_is_empty() ==> r.spec_is_empty(),
    {
        match &self.0 {
            None => Tree(None),
            Some(n) => n.left.clone(),
        }
    }

    fn right(&self) -> (r: Self)
        ensures
            !self.spec_is_empty() ==> r == self.spec_right(),
            self.spec_is_empty() ==> r.spec_is_empty(),
    {
        match &self.0 {
            None => Tree(None),
            Some(n) => n.right.clone(),
        }
    }

    fn key(&self) -> (r: Rc<K>)
        requires
            !self.spec_is_empty(),
        ensures
            *r == self.spec_key(),
    {
        self.0.as_ref().unwrap().key.clone()
    }

    fn value(&self) -> (r: Rc<V>)
        requires
            !self.spec_is_empty(),
        ensures
            *r == self.spec_value(),
    {
        self.0.as_ref().unwrap().value.clone()
    }

    fn is_empty(&self) -> (r: bool)
        ensures
            r == self.spec_is_empty(),
    {
        self.0.is_none()
    }

    /// The empty map.
    pub fn new() -> (r: Self)
        ensures
            r.spec_is_empty(),
            r.entries() == Seq::<(K, V)>::empty(),
            r@ == Map::<K, V>::empty(),
            r.is_red_black(),
    {
        Tree(None)
    }
}

impl<K: Ord, V> Tree<K, V> {
    /// Where a search for `k` from the root stops: the subtree whose root
    /// compares equal to `k`, or the empty subtree the search falls into.
    pub closed spec fn subtree_at(self, k: K) -> Tree<K, V>
        decreases self,
    {
        match self.0 {
            None => self,
            Some(n) => match k.cmp_spec(&*n.key) {
                Ordering::Less => n.left.subtree_at(k),
                Ordering::Greater => n.right.subtree_at(k),
                Ordering::Equal => self,
            },
        }
    }

    /// The subtree whose root holds `k`, or an empty tree where there is none.
    fn lookup(&self, k: &K) -> (r: Self)
        requires
            total_order::<K>(),
            sorted_keys(self.entries()),
        ensures
            r == self.subtree_at(*k),
            r.spec_is_empty() <==> !self@.contains_key(*k),
            !r.spec_is_empty() ==> r.spec_key() == *k && r.spec_value() == self@[*k],
    {
        proof {
            lemma_total_order::<K>();
        }
        let mut tree = self.clone();
        while !tree.is_empty()
            invariant
                total_order::<K>(),
                sorted_keys(tree.entries()),
                self@.contains_key(*k) <==> tree@.contains_key(*k),
                self@.contains_key(*k) ==> self@[*k] == tree@[*k],
                tree.subtree_at(*k) == self.subtree_at(*k),
            decreases tree.height(),
        {
            let node = tree.0.as_ref().unwrap();
            let ghost a = tree.spec_left().entries();
            let ghost e = (tree.spec_key(), tree.spec_value());
            let ghost b = tree.spec_right().entries();
            proof {
                lemma_total_order::<K>();
                assert(tree.entries() == a + seq![e] + b);
                lemma_sorted_split(a, e, b);
                lemma_map_of_node(a, e, b);
            }
            match k.cmp(&*node.key) {
                Ordering::Less => {
                    proof {
                        lemma_above_absent(b, e.0, *k);
                    }
                    tree = node.left.clone();
                },
                Ordering::Greater => {
                    proof {
                        lemma_below_absent(a, e.0, *k);
                    }
                    tree = node.right.clone();
                },
                Ordering::Equal => {
                    proof {
                        lemma_above_absent(b, e.0, *k);
                    }
                    return tree;
                },
            }
        }
        tree
    }

    /// Whether the map holds `k`.
    pub fn contains(&self, k: K) -> (r: bool)
        requires
            total_order::<K>(),
            self.wf(),
        ensures
            r == self@.contains_key(k),
    {
        !self.lookup(&k).is_empty()
    }

    /// The value that the map holds for `k`, if any.
    pub fn get(&self, k: K) -> (r: Option<V>)
        where V: Clone
        requires
            total_order::<K>(),
            self.wf(),
        ensures
            r.is_some() == self@.contains_key(k),
            r.is_some() ==> cloned(self@[k], r.unwrap()),
    {
        let found = self.lookup(&k);
        match &found.0 {
            None => None,
            Some(n) => Some((*n.value).clone()),
        }
    }
}

/// The map after an insertion of `v` under `k`: an existing entry for `k` is
/// replaced only when `overwrite` holds.
pub open spec fn inserted<K, V>(m: Map<K, V>, k: K, v: V, overwrite: bool) -> Map<K, V> {
    if overwrite || !m.contains_key(k) {
        m.insert(k, v)
    } else {
        m
    }
}

impl<K: Ord, V> Tree<K, V> {
    fn mk_tree(is_black: bool, z: Rc<K>, zv: Rc<V>, l: Self, r: Self) -> (t: Self)
        ensures
            !t.spec_is_empty(),
            t.spec_is_red() == !is_black,
            t.spec_key() == *z,
            t.spec_value() == *zv,
            t.spec_left() == l,
            t.spec_right() == r,
    {
        if is_black {
            Tree::black(z, zv, l, r)
        } else {
            Tree::red(z, zv, l, r)
        }
    }

    /// Rebuilds a node whose left subtree grew by an insertion, rotating away
    /// a red node with a red child in that subtree.
    #[verifier::spinoff_prover]
    #[verifier::rlimit(40)]
    fn ins_balance_left(is_black: bool, z: Rc<K>, zv: Rc<V>, l: Self, d: Self) -> (t: Self)
        ensures
            t.entries() == l.entries() + seq![(*z, *zv)] + d.entries(),
            is_black && l.children_red_ok() && d.red_ok() && l.balanced() && d.balanced()
                && l.black_height() == d.black_height() ==> t.red_ok() && t.balanced()
                && t.black_height() == l.black_height() + 1,
            !is_black && l.red_ok() && d.red_ok() && l.balanced() && d.balanced()
                && l.black_height() == d.black_height() ==> t.children_red_ok() && t.balanced()
                && t.black_height() == l.black_height(),
    {
        if l.is_red() && l.left().is_red() {
            let ll = l.left();
            let t1 = Tree::black(ll.key(), ll.value(), ll.left(), ll.right());
            let t2 = Tree::black(z, zv, l.right(), d);
            let t = Tree::red(l.key(), l.value(), t1, t2);
            proof {
                l.lemma_node();
                ll.lemma_node();
                t1.lemma_node();
                t2.lemma_node();
                t.lemma_node();
                assert(t.entries() =~= l.entries() + seq![(*z, *zv)] + d.entries());
            }
            t
        } else if l.is_red() && l.right().is_red() {
            let lr = l.right();
            let t1 = Tree::black(l.key(), l.value(), l.left(), lr.left());
            let t2 = Tree::black(z, zv, lr.right(), d);
            let t = Tree::red(lr.key(), lr.value(), t1, t2);
            proof {
                l.lemma_node();
                lr.lemma_node();
                t1.lemma_node();
                t2.lemma_node();
                t.lemma_node();
                assert(t.entries() =~= l.entries() + seq![(*z, *zv)] + d.entries());
            }
            t
        } else {
            let t = Tree::mk_tree(is_black, z, zv, l, d);
            proof {
                t.lemma_node();
                if l.spec_is_red() {
                    l.lemma_node();
                }
            }
            t
        }
    }

    /// The mirror image of `ins_balance_left`.
    #[verifier::spinoff_prover]
    #[verifier::rlimit(40)]
    fn ins_balance_right(is_black: bool, x: Rc<K>, xv: Rc<V>, a: Self, r: Self) -> (t: Self)
        ensures
            t.entries() == a.entries() + seq![(*x, *xv)] + r.entries(),
            is_black && a.red_ok() && r.children_red_ok() && a.balanced() && r.balanced()
                && a.black_height() == r.black_height() ==> t.red_ok() && t.balanced()
                && t.black_height() == a.black_height() + 1,
            !is_black && a.red_ok() && r.red_ok() && a.balanced() && r.balanced()
                && a.black_height() == r.black_height() ==> t.children_red_ok() && t.balanced()
                && t.black_height() == a.black_height(),
    {
        if r.is_red() && r.left().is_red() {
            let rl = r.left();
            let t1 = Tree::black(x, xv, a, rl.left());
            let t2 = Tree::black(r.key(), r.value(), rl.right(), r.right());
            let t = Tree::red(rl.key(), rl.value(), t1, t2);
            proof {
                r.lemma_node();
                rl.lemma_node();
                t1.lemma_node();
                t2.lemma_node();
                t.lemma_node();
                assert(t.entries() =~= a.entries() + seq![(*x, *xv)] + r.entries());
            }
            t
        } else if r.is_red() && r.right().is_red() {
            let rr = r.right();
            let t1 = Tree::black(x, xv, a, r.left());
            let t2 = Tree::black(rr.key(), rr.value(), rr.left(), rr.right());
            let t = Tree::red(r.key(), r.value(), t1, t2);
            proof {
                r.lemma_node();
                rr.lemma_node();
                t1.lemma_node();
                t2.lemma_node();
                t.lemma_node();
                assert(t.entries() =~= a.entries() + seq![(*x, *xv)] + r.entries());
            }
            t
        } else {
            let t = Tree::mk_tree(is_black, x, xv, a, r);
            proof {
                t.lemma_node();
                if r.spec_is_red() {
                    r.lemma_node();
                }
            }
            t
        }
    }

    /// Inserts below the root, rebalancing on the way back up; the root may
    /// come back red with a red child.
    fn ins(&self, k: K, v: V, overwrite: bool) -> (t: Self)
        requires
            total_order::<K>(),
            sorted_keys(self.entries()),
        ensures
            !t.spec_is_empty(),
            sorted_keys(t.entries()),
            t@ == inserted(self@, k, v, overwrite),
            forall|x: K|
                all_below(self.entries(), x) && key_lt(k, x) ==> #[trigger] all_below(t.entries(), x),
            forall|x: K|
                all_above(self.entries(), x) && key_lt(x, k) ==> #[trigger] all_above(t.entries(), x),
            self.red_ok() && self.balanced() ==> t.balanced() && t.black_height()
                == self.black_height() && t.children_red_ok() && (!self.spec_is_red()
                ==> t.red_ok()),
        decreases self.height(),
    {
        proof {
            lemma_total_order::<K>();
        }
        if self.is_empty() {
            let t = Tree::red(Rc::new(k), Rc::new(v), Tree(None), Tree(None));
            proof {
                let e = (k, v);
                let z = Seq::<(K, V)>::empty();
                assert(t.entries() == z + seq![e] + z);
                lemma_map_of_node(z, e, z);
                assert(t@ =~= inserted(self@, k, v, overwrite));
                assert forall|x: K| key_lt(k, x) implies #[trigger] all_below(t.entries(), x) by {
                    lemma_bounds_concat(z, e, z, x);
                }
                assert forall|x: K| key_lt(x, k) implies #[trigger] all_above(t.entries(), x) by {
                    lemma_bounds_concat(z, e, z, x);
                }
            }
            return t;
        }
        let ghost a = self.spec_left().entries();
        let ghost e = (self.spec_key(), self.spec_value());
        let ghost b = self.spec_right().entries();
        proof {
            assert(self.entries() == a + seq![e] + b);
            lemma_sorted_split(a, e, b);
            lemma_map_of_node(a, e, b);
        }
        match k.cmp(&*self.key()) {
            Ordering::Less => {
                let nl = self.left().ins(k, v, overwrite);
                let t = Tree::ins_balance_left(self.is_black(), self.key(), self.value(), nl, self.right());
                proof {
                    let a2 = nl.entries();
                    lemma_sorted_join(a2, e, b);
                    lemma_map_of_node(a2, e, b);
                    lemma_above_absent(b, e.0, k);
                    assert(t@ =~= inserted(self@, k, v, overwrite));
                    assert(key_lt(k, e.0));
                    assert forall|x: K| all_above(self.entries(), x) && key_lt(x, k) implies #[trigger] all_above(t.entries(), x) by {
                        lemma_bounds_concat(a, e, b, x);
                        lemma_bounds_concat(a2, e, b, x);
                        assert(key_lt(x, e.0));
                    }
                    assert forall|x: K| all_below(self.entries(), x) && key_lt(k, x) implies #[trigger] all_below(t.entries(), x) by {
                        lemma_bounds_concat(a, e, b, x);
                        lemma_bounds_concat(a2, e, b, x);
                    }
                }
                t
            },
            Ordering::Greater => {
                let nr = self.right().ins(k, v, overwrite);
                let t = Tree::ins_balance_right(self.is_black(), self.key(), self.value(), self.left(), nr);
                proof {
                    let b2 = nr.entries();
                    lemma_sorted_join(a, e, b2);
                    lemma_map_of_node(a, e, b2);
                    lemma_below_absent(a, e.0, k);
                    assert(t@ =~= inserted(self@, k, v, overwrite));
                    assert(key_lt(e.0, k));
                    assert forall|x: K| all_below(self.entries(), x) && key_lt(k, x) implies #[trigger] all_below(t.entries(), x) by {
                        lemma_bounds_concat(a, e, b, x);
                        lemma_bounds_concat(a, e, b2, x);
                        assert(key_lt(e.0, x));
                    }
                    assert forall|x: K| all_above(self.entries(), x) && key_lt(x, k) implies #[trigger] all_above(t.entries(), x) by {
                        lemma_bounds_concat(a, e, b, x);
                        lemma_bounds_concat(a, e, b2, x);
                    }
                }
                t
            },
            Ordering::Equal => {
                proof {
                    lemma_above_absent(b, e.0, k);
                }
                if overwrite {
                    let ghost e2 = (k, v);
                    let t = Tree::mk_tree(self.is_black(), Rc::new(k), Rc::new(v), self.left(), self.right());
                    proof {
                        lemma_sorted_join(a, e2, b);
                        lemma_map_of_node(a, e2, b);
                        assert(t@ =~= inserted(self@, k, v, overwrite));
                        assert forall|x: K| all_below(self.entries(), x) && key_lt(k, x) implies #[trigger] all_below(t.entries(), x) by {
                            lemma_bounds_concat(a, e, b, x);
                            lemma_bounds_concat(a, e2, b, x);
                        }
                        assert forall|x: K| all_above(self.entries(), x) && key_lt(x, k) implies #[trigger] all_above(t.entries(), x) by {
                            lemma_bounds_concat(a, e, b, x);
                            lemma_bounds_concat(a, e2, b, x);
                        }
                    }
                    t
                } else {
                    self.clone()
                }
            },
        }
    }

    /// The map with `v` under `k`. Where `k` is present already, its value is
    /// replaced if `overwrite` holds and kept otherwise.
    pub fn updated(&self, k: K, v: V, overwrite: bool) -> (t: Self)
        requires
            total_order::<K>(),
            self.wf(),
        ensures
            t.wf(),
            t@ == inserted(self@, k, v, overwrite),
    {
        let t = self.ins(k, v, overwrite).to_black();
        t
    }
}

impl<K: Ord, V> Tree<K, V> {
    /// Builds a node over two subtrees of equal black height, either of which
    /// may be a red node with a red child, rotating so that no red node keeps
    /// a red child.
    fn del_balance(x: Rc<K>, xv: Rc<V>, tl: Self, tr: Self) -> (t: Self)
        ensures
            t.entries() == tl.entries() + seq![(*x, *xv)] + tr.entries(),
            tl.balanced() && tr.balanced() && tl.black_height() == tr.black_height()
                && tl.children_red_ok() && tr.children_red_ok() ==> t.red_ok() && t.balanced()
                && t.black_height() == tl.black_height() + 1,
    {
        if tl.is_red() {
            Tree::del_balance_red_left(x, xv, tl, tr)
        } else if tr.is_red() {
            Tree::del_balance_red_right(x, xv, tl, tr)
        } else {
            let t = Tree::black(x, xv, tl, tr);
            proof {
                t.lemma_node();
                if !tl.spec_is_empty() {
                    tl.lemma_node();
                }
                if !tr.spec_is_empty() {
                    tr.lemma_node();
                }
            }
            t
        }
    }

    /// `del_balance` where the left subtree is red.
    #[verifier::spinoff_prover]
    #[verifier::rlimit(40)]
    fn del_balance_red_left(x: Rc<K>, xv: Rc<V>, tl: Self, tr: Self) -> (t: Self)
        requires
            tl.spec_is_red(),
        ensures
            t.entries() == tl.entries() + seq![(*x, *xv)] + tr.entries(),
            tl.balanced() && tr.balanced() && tl.black_height() == tr.black_height()
                && tl.children_red_ok() && tr.children_red_ok() ==> t.red_ok() && t.balanced()
                && t.black_height() == tl.black_height() + 1,
    {
        proof {
            tl.lemma_node();
        }
        if tr.is_red() {
            let t1 = tl.to_black();
            let t2 = tr.to_black();
            let t = Tree::red(x, xv, t1, t2);
            proof {
                tr.lemma_node();
                t1.lemma_node();
                t2.lemma_node();
                t.lemma_node();
            }
            t
        } else if tl.left().is_red() {
            let t1 = tl.left().to_black();
            let t2 = Tree::black(x, xv, tl.right(), tr);
            let t = Tree::red(tl.key(), tl.value(), t1, t2);
            proof {
                tl.spec_left().lemma_node();
                t1.lemma_node();
                t2.lemma_node();
                t.lemma_node();
                if !tr.spec_is_empty() {
                    tr.lemma_node();
                }
                assert(t.entries() =~= tl.entries() + seq![(*x, *xv)] + tr.entries());
            }
            t
        } else if tl.right().is_red() {
            let tlr = tl.right();
            let t1 = Tree::black(tl.key(), tl.value(), tl.left(), tlr.left());
            let t2 = Tree::black(x, xv, tlr.right(), tr);
            let t = Tree::red(tlr.key(), tlr.value(), t1, t2);
            proof {
                tlr.lemma_node();
                t1.lemma_node();
                t2.lemma_node();
                t.lemma_node();
                if !tr.spec_is_empty() {
                    tr.lemma_node();
                }
                assert(t.entries() =~= tl.entries() + seq![(*x, *xv)] + tr.entries());
            }
            t
        } else {
            let t = Tree::black(x, xv, tl, tr);
            proof {
                t.lemma_node();
                if !tr.spec_is_empty() {
                    tr.lemma_node();
                }
            }
            t
        }
    }

    /// `del_balance` where the left subtree is not red and the right one is.
    #[verifier::spinoff_prover]
    #[verifier::rlimit(40)]
    fn del_balance_red_right(x: Rc<K>, xv: Rc<V>, tl: Self, tr: Self) -> (t: Self)
        requires
            !tl.spec_is_red(),
            tr.spec_is_red(),
        ensures
            t.entries() == tl.entries() + seq![(*x, *xv)] + tr.entries(),
            tl.balanced() && tr.balanced() && tl.black_height() == tr.black_height()
                && tl.children_red_ok() && tr.children_red_ok() ==> t.red_ok() && t.balanced()
                && t.black_height() == tl.black_height() + 1,
    {
        proof {
            tr.lemma_node();
            if !tl.spec_is_empty() {
                tl.lemma_node();
            }
        }
        if tr.right().is_red() {
            let t1 = Tree::black(x, xv, tl, tr.left());
            let t2 = tr.right().to_black();
            let t = Tree::red(tr.key(), tr.value(), t1, t2);
            proof {
                tr.spec_right().lemma_node();
                t1.lemma_node();
                t2.lemma_node();
                t.lemma_node();
                assert(t.entries() =~= tl.entries() + seq![(*x, *xv)] + tr.entries());
            }
            t
        } else if tr.left().is_red() {
            let trl = tr.left();
            let t1 = Tree::black(x, xv, tl, trl.left());
            let t2 = Tree::black(tr.key(), tr.value(), trl.right(), tr.right());
            let t = Tree::red(trl.key(), trl.value(), t1, t2);
            proof {
                trl.lemma_node();
                t1.lemma_node();
                t2.lemma_node();
                t.lemma_node();
                assert(t.entries() =~= tl.entries() + seq![(*x, *xv)] + tr.entries());
            }
            t
        } else {
            let t = Tree::black(x, xv, tl, tr);
            proof {
                t.lemma_node();
            }
            t
        }
    }

    /// Rebuilds a node whose left subtree lost one black node from each of its
    /// paths, restoring equal black heights.
    #[verifier::spinoff_prover]
    #[verifier::rlimit(40)]
    fn del_balance_left(x: Rc<K>, xv: Rc<V>, tl: Self, tr: Self) -> (t: Self)
        requires
            tl.balanced(),
            tr.balanced(),
            tl.black_height() + 1 == tr.black_height(),
            tl.children_red_ok(),
            tr.red_ok(),
        ensures
            t.entries() == tl.entries() + seq![(*x, *xv)] + tr.entries(),
            t.balanced(),
            t.black_height() == tr.black_height(),
            t.children_red_ok(),
            !tr.spec_is_red() ==> t.red_ok(),
    {
        proof {
            tr.lemma_node();
            if !tl.spec_is_empty() {
                tl.lemma_node();
            }
        }
        if tl.is_red() {
            let t1 = tl.to_black();
            let t = Tree::red(x, xv, t1, tr);
            proof {
                t1.lemma_node();
                t.lemma_node();
            }
            t
        } else if tr.is_black_node() {
            let t2 = tr.to_red();
            let t = Tree::del_balance(x, xv, tl, t2);
            proof {
                t2.lemma_node();
            }
            t
        } else {
            // `tr` is red here, with a black non-empty left child.
            let trl = tr.left();
            let trr = tr.right();
            proof {
                trl.lemma_node();
                trr.lemma_node();
            }
            let t1 = Tree::black(x, xv, tl, trl.left());
            let t3 = trr.to_red();
            let t2 = Tree::del_balance(tr.key(), tr.value(), trl.right(), t3);
            let t = Tree::red(trl.key(), trl.value(), t1, t2);
            proof {
                t1.lemma_node();
                t3.lemma_node();
                t.lemma_node();
                assert(t.entries() =~= tl.entries() + seq![(*x, *xv)] + tr.entries());
            }
            t
        }
    }

    /// The mirror image of `del_balance_left`: the right subtree lost one
    /// black node from each of its paths.
    #[verifier::spinoff_prover]
    #[verifier::rlimit(40)]
    fn del_balance_right(x: Rc<K>, xv: Rc<V>, tl: Self, tr: Self) -> (t: Self)
        requires
            tl.balanced(),
            tr.balanced(),
            tl.black_height() == tr.black_height() + 1,
            tl.red_ok(),
            tr.children_red_ok(),
        ensures
            t.entries() == tl.entries() + seq![(*x, *xv)] + tr.entries(),
            t.balanced(),
            t.black_height() == tl.black_height(),
            t.children_red_ok(),
            !tl.spec_is_red() ==> t.red_ok(),
    {
        proof {
            tl.lemma_node();
            if !tr.spec_is_empty() {
                tr.lemma_node();
            }
        }
        if tr.is_red() {
            let t2 = tr.to_black();
            let t = Tree::red(x, xv, tl, t2);
            proof {
                t2.lemma_node();
                t.lemma_node();
            }
            t
        } else if tl.is_black_node() {
            let t1 = tl.to_red();
            let t = Tree::del_balance(x, xv, t1, tr);
            proof {
                t1.lemma_node();
            }
            t
        } else {
            // `tl` is red here, with a black non-empty right child.
            let tll = tl.left();
            let tlr = tl.right();
            proof {
                tll.lemma_node();
                tlr.lemma_node();
            }
            let t0 = tll.to_red();
            let t1 = Tree::del_balance(tl.key(), tl.value(), t0, tlr.left());
            let t2 = Tree::black(x, xv, tlr.right(), tr);
            let t = Tree::red(tlr.key(), tlr.value(), t1, t2);
            proof {
                t0.lemma_node();
                t2.lemma_node();
                t.lemma_node();
                assert(t.entries() =~= tl.entries() + seq![(*x, *xv)] + tr.entries());
            }
            t
        }
    }
}

impl<K: Ord, V> Tree<K, V> {
    /// Joins two subtrees of equal black height whose entries follow each
    /// other in key order, as when the node between them is removed.
    fn join(tl: Self, tr: Self) -> (t: Self)
        requires
            tl.balanced(),
            tr.balanced(),
            tl.black_height() == tr.black_height(),
            tl.red_ok(),
            tr.red_ok(),
        ensures
            t.entries() == tl.entries() + tr.entries(),
            t.balanced(),
            t.black_height() == tl.black_height(),
            t.children_red_ok(),
            !tl.spec_is_red() && !tr.spec_is_red() ==> t.red_ok(),
        decreases tl.height() + tr.height(), 1nat,
    {
        if tl.is_empty() {
            proof {
                assert(tl.entries() + tr.entries() =~= tr.entries());
                if !tr.spec_is_empty() {
                    tr.lemma_node();
                }
            }
            return tr;
        }
        if tr.is_empty() {
            proof {
                assert(tl.entries() + tr.entries() =~= tl.entries());
                tl.lemma_node();
            }
            return tl;
        }
        if tl.is_red() && tr.is_red() {
            Tree::join_reds(tl, tr)
        } else if tl.is_black() && tr.is_black() {
            Tree::join_blacks(tl, tr)
        } else if tr.is_red() {
            proof {
                tl.lemma_node();
                tr.lemma_node();
                tr.lemma_height();
            }
            let j = Tree::join(tl, tr.left());
            let t = Tree::red(tr.key(), tr.value(), j, tr.right());
            proof {
                t.lemma_node();
                lemma_seq_regroup(tl.entries(), tr.spec_left().entries(), seq![(tr.spec_key(), tr.spec_value())], tr.spec_right().entries());
            }
            t
        } else {
            proof {
                tl.lemma_node();
                tr.lemma_node();
                tl.lemma_height();
            }
            let j = Tree::join(tl.right(), tr);
            let t = Tree::red(tl.key(), tl.value(), tl.left(), j);
            proof {
                t.lemma_node();
                lemma_seq_regroup(tl.spec_left().entries(), seq![(tl.spec_key(), tl.spec_value())], tl.spec_right().entries(), tr.entries());
            }
            t
        }
    }

    /// `join` of two red nodes.
    #[verifier::spinoff_prover]
    #[verifier::rlimit(40)]
    fn join_reds(tl: Self, tr: Self) -> (t: Self)
        requires
            tl.balanced(),
            tr.balanced(),
            tl.black_height() == tr.black_height(),
            tl.red_ok(),
            tr.red_ok(),
            tl.spec_is_red(),
            tr.spec_is_red(),
        ensures
            t.entries() == tl.entries() + tr.entries(),
            t.balanced(),
            t.black_height() == tl.black_height(),
            t.children_red_ok(),
        decreases tl.height() + tr.height(), 0nat,
    {
        proof {
            tl.lemma_node();
            tr.lemma_node();
            tl.lemma_height();
            tr.lemma_height();
        }
        let ghost a = tl.spec_left().entries();
        let ghost x = seq![(tl.spec_key(), tl.spec_value())];
        let ghost b = tl.spec_right().entries();
        let ghost c = tr.spec_left().entries();
        let ghost y = seq![(tr.spec_key(), tr.spec_value())];
        let ghost d = tr.spec_right().entries();
        let bc = Tree::join(tl.right(), tr.left());
        if bc.is_red() {
            proof {
                bc.lemma_node();
            }
            let t1 = Tree::red(tl.key(), tl.value(), tl.left(), bc.left());
            let t2 = Tree::red(tr.key(), tr.value(), bc.right(), tr.right());
            let t = Tree::red(bc.key(), bc.value(), t1, t2);
            proof {
                t1.lemma_node();
                t2.lemma_node();
                t.lemma_node();
                lemma_seq_split_middle(a, x, b, c, y, d, bc.spec_left().entries(), seq![(bc.spec_key(), bc.spec_value())], bc.spec_right().entries());
            }
            t
        } else {
            let t2 = Tree::red(tr.key(), tr.value(), bc, tr.right());
            let t = Tree::red(tl.key(), tl.value(), tl.left(), t2);
            proof {
                if !bc.spec_is_empty() {
                    bc.lemma_node();
                }
                t2.lemma_node();
                t.lemma_node();
                lemma_seq_keep_middle(a, x, b, c, y, d);
            }
            t
        }
    }

    /// `join` of two black nodes.
    #[verifier::spinoff_prover]
    #[verifier::rlimit(40)]
    fn join_blacks(tl: Self, tr: Self) -> (t: Self)
        requires
            tl.balanced(),
            tr.balanced(),
            tl.black_height() == tr.black_height(),
            tl.red_ok(),
            tr.red_ok(),
            tl.is_black_node_spec(),
            tr.is_black_node_spec(),
        ensures
            t.entries() == tl.entries() + tr.entries(),
            t.balanced(),
            t.black_height() == tl.black_height(),
            t.red_ok(),
        decreases tl.height() + tr.height(), 0nat,
    {
        proof {
            tl.lemma_node();
            tr.lemma_node();
            tl.lemma_height();
            tr.lemma_height();
        }
        let ghost a = tl.spec_left().entries();
        let ghost x = seq![(tl.spec_key(), tl.spec_value())];
        let ghost b = tl.spec_right().entries();
        let ghost c = tr.spec_left().entries();
        let ghost y = seq![(tr.spec_key(), tr.spec_value())];
        let ghost d = tr.spec_right().entries();
        let bc = Tree::join(tl.right(), tr.left());
        if bc.is_red() {
            proof {
                bc.lemma_node();
            }
            let t1 = Tree::black(tl.key(), tl.value(), tl.left(), bc.left());
            let t2 = Tree::black(tr.key(), tr.value(), bc.right(), tr.right());
            let t = Tree::red(bc.key(), bc.value(), t1, t2);
            proof {
                t1.lemma_node();
                t2.lemma_node();
                t.lemma_node();
                lemma_seq_split_middle(a, x, b, c, y, d, bc.spec_left().entries(), seq![(bc.spec_key(), bc.spec_value())], bc.spec_right().entries());
            }
            t
        } else {
            let t2 = Tree::black(tr.key(), tr.value(), bc, tr.right());
            proof {
                if !bc.spec_is_empty() {
                    bc.lemma_node();
                }
                if !tl.spec_left().spec_is_empty() {
                    tl.spec_left().lemma_node();
                }
                t2.lemma_node();
            }
            let t = Tree::del_balance_left(tl.key(), tl.value(), tl.left(), t2);
            proof {
                lemma_seq_keep_middle(a, x, b, c, y, d);
            }
            t
        }
    }

    /// Removes `k` below the root. A black root comes back one black node
    /// shorter on every path, and may be a red node with a red child; a red
    /// root comes back as high and with no red node over a red child.
    fn del(&self, k: &K) -> (t: Self)
        requires
            total_order::<K>(),
            sorted_keys(self.entries()),
            self.balanced(),
            self.red_ok(),
        ensures
            sorted_keys(t.entries()),
            t@ == self@.remove(*k),
            forall|x: K| all_below(self.entries(), x) ==> #[trigger] all_below(t.entries(), x),
            forall|x: K| all_above(self.entries(), x) ==> #[trigger] all_above(t.entries(), x),
            t.balanced(),
            self.spec_is_red() ==> t.black_height() == self.black_height() && t.red_ok(),
            !self.spec_is_red() && !self.spec_is_empty() ==> t.black_height() + 1
                == self.black_height() && t.children_red_ok(),
            self.spec_is_empty() ==> t.spec_is_empty(),
        decreases self.height(),
    {
        proof {
            lemma_total_order::<K>();
        }
        if self.is_empty() {
            let t = Tree(None);
            proof {
                assert(t@ =~= self@.remove(*k));
            }
            return t;
        }
        let ghost a = self.spec_left().entries();
        let ghost e = (self.spec_key(), self.spec_value());
        let ghost b = self.spec_right().entries();
        proof {
            self.lemma_node();
            self.lemma_height();
            lemma_sorted_split(a, e, b);
            lemma_map_of_node(a, e, b);
            let l = self.spec_left();
            let r = self.spec_right();
            if !l.spec_is_empty() {
                l.lemma_node();
            }
            if !r.spec_is_empty() {
                r.lemma_node();
            }
        }
        match k.cmp(&*self.key()) {
            Ordering::Less => {
                let l = self.left();
                let nl = l.del(k);
                let t = if l.is_black_node() {
                    Tree::del_balance_left(self.key(), self.value(), nl, self.right())
                } else {
                    Tree::red(self.key(), self.value(), nl, self.right())
                };
                proof {
                    if !t.spec_is_empty() && !l.is_black_node_spec() {
                        t.lemma_node();
                    }
                    let a2 = nl.entries();
                    assert(t.entries() == a2 + seq![e] + b);
                    lemma_sorted_join(a2, e, b);
                    lemma_map_of_node(a2, e, b);
                    lemma_above_absent(b, e.0, *k);
                    assert(t@ =~= self@.remove(*k));
                    assert forall|x: K| all_below(self.entries(), x) implies #[trigger] all_below(t.entries(), x) by {
                        lemma_bounds_concat(a, e, b, x);
                        lemma_bounds_concat(a2, e, b, x);
                    }
                    assert forall|x: K| all_above(self.entries(), x) implies #[trigger] all_above(t.entries(), x) by {
                        lemma_bounds_concat(a, e, b, x);
                        lemma_bounds_concat(a2, e, b, x);
                    }
                }
                t
            },
            Ordering::Greater => {
                let r = self.right();
                let nr = r.del(k);
                let t = if r.is_black_node() {
                    Tree::del_balance_right(self.key(), self.value(), self.left(), nr)
                } else {
                    Tree::red(self.key(), self.value(), self.left(), nr)
                };
                proof {
                    if !t.spec_is_empty() && !r.is_black_node_spec() {
                        t.lemma_node();
                    }
                    let b2 = nr.entries();
                    assert(t.entries() == a + seq![e] + b2);
                    lemma_sorted_join(a, e, b2);
                    lemma_map_of_node(a, e, b2);
                    lemma_below_absent(a, e.0, *k);
                    assert(t@ =~= self@.remove(*k));
                    assert forall|x: K| all_below(self.entries(), x) implies #[trigger] all_below(t.entries(), x) by {
                        lemma_bounds_concat(a, e, b, x);
                        lemma_bounds_concat(a, e, b2, x);
                    }
                    assert forall|x: K| all_above(self.entries(), x) implies #[trigger] all_above(t.entries(), x) by {
                        lemma_bounds_concat(a, e, b, x);
                        lemma_bounds_concat(a, e, b2, x);
                    }
                }
                t
            },
            Ordering::Equal => {
                let t = Tree::join(self.left(), self.right());
                proof {
                    lemma_sorted_append(a, b, e.0);
                    lemma_map_of_concat(a, b);
                    lemma_below_absent(a, e.0, *k);
                    lemma_above_absent(b, e.0, *k);
                    assert(t@ =~= self@.remove(*k));
                    assert forall|x: K| all_below(self.entries(), x) implies #[trigger] all_below(t.entries(), x) by {
                        lemma_bounds_concat(a, e, b, x);
                    }
                    assert forall|x: K| all_above(self.entries(), x) implies #[trigger] all_above(t.entries(), x) by {
                        lemma_bounds_concat(a, e, b, x);
                    }
                }
                t
            },
        }
    }

    /// The map without `k`.
    pub fn removed(&self, k: K) -> (t: Self)
        requires
            total_order::<K>(),
            self.wf(),
        ensures
            t.wf(),
            t@ == self@.remove(k),
    {
        let d = self.del(&k);
        let t = d.to_black();
        proof {
            if !d.spec_is_empty() {
                d.lemma_node();
                t.lemma_node();
            }
        }
        t
    }
}

impl<K: Ord, V> Tree<K, V> {
    fn push_keys<'a>(&'a self, out: &mut Vec<&'a K>)
        ensures
            final(out)@.len() == old(out)@.len() + self.entries().len(),
            forall|i: int| 0 <= i < old(out)@.len() ==> #[trigger] final(out)@[i] == old(out)@[i],
            forall|i: int|
                0 <= i < self.entries().len() ==> *#[trigger] final(out)@[old(out)@.len() + i]
                    == self.entries()[i].0,
        decreases self.height(),
    {
        match &self.0 {
            None => {},
            Some(node) => {
                proof {
                    self.lemma_node();
                    self.lemma_height();
                }
                let ghost n0 = out@.len();
                node.left.push_keys(out);
                let ghost o1 = out@;
                out.push(&*node.key);
                let ghost o2 = out@;
                node.right.push_keys(out);
                proof {
                    let a = self.spec_left().entries();
                    let e = seq![(self.spec_key(), self.spec_value())];
                    let b = self.spec_right().entries();
                    assert forall|i: int| 0 <= i < self.entries().len() implies *#[trigger] out@[n0 + i]
                        == self.entries()[i].0 by {
                        if i < a.len() {
                            assert(self.entries()[i] == a[i]);
                            assert(o1[n0 + i] == o2[n0 + i]);
                        } else if i == a.len() {
                            assert(self.entries()[i] == e[0]);
                            assert(o2[n0 + i] == out@[n0 + i]);
                        } else {
                            let j = i - a.len() - 1;
                            assert(self.entries()[i] == b[j]);
                            assert(out@[o2.len() + j] == out@[n0 + i]);
                        }
                    }
                }
            },
        }
    }

    /// The keys in an in-order walk of the tree: each key of the map once, in
    /// strictly ascending order.
    pub fn keys(&self) -> (r: Vec<&K>)
        requires
            total_order::<K>(),
            self.wf(),
        ensures
            r@.len() == self.entries().len(),
            forall|i: int| 0 <= i < r@.len() ==> *#[trigger] r@[i] == self.entries()[i].0,
            forall|i: int, j: int| 0 <= i < j < r@.len() ==> key_lt(*#[trigger] r@[i], *#[trigger] r@[j]),
            forall|i: int| 0 <= i < r@.len() ==> self@.contains_key(*#[trigger] r@[i]),
            forall|k: K| #[trigger] self@.contains_key(k) ==> exists|i: int| 0 <= i < r@.len() && *r@[i] == k,
    {
        let mut out: Vec<&K> = Vec::new();
        self.push_keys(&mut out);
        proof {
            let s = self.entries();
            assert forall|i: int| 0 <= i < out@.len() implies *#[trigger] out@[i] == s[i].0 by {
                assert(out@[0 + i] == out@[i]);
            }
            assert forall|i: int| 0 <= i < out@.len() implies self@.contains_key(*#[trigger] out@[i]) by {
                lemma_map_of_has(s, i);
            }
            assert forall|k: K| #[trigger] self@.contains_key(k) implies exists|i: int| 0 <= i < out@.len() && *out@[i] == k by {
                lemma_map_of_key(s, k);
                let i = choose|i: int| 0 <= i < s.len() && #[trigger] s[i].0 == k;
                assert(*out@[i] == k);
            }
        }
        out
    }

    /// The black height of a red-black tree, or `None` where the tree breaks
    /// an invariant (or the height does not fit in a `u64`).
    fn check(&self) -> (r: Option<u64>)
        ensures
            r matches Some(h) ==> self.is_red_black() && h == self.black_height(),
            self.is_red_black() && self.black_height() < u64::MAX ==> r == Some(
                self.black_height() as u64,
            ),
        decreases self.height(),
    {
        match &self.0 {
            None => Some(0),
            Some(node) => {
                proof {
                    self.lemma_node();
                    self.lemma_height();
                }
                let red = self.is_red();
                if red && (node.left.is_red() || node.right.is_red()) {
                    return None;
                }
                let hl = match node.left.check() {
                    None => return None,
                    Some(h) => h,
                };
                let hr = match node.right.check() {
                    None => return None,
                    Some(h) => h,
                };
                if hl != hr {
                    None
                } else if red {
                    Some(hl)
                } else if hl == u64::MAX {
                    None
                } else {
                    Some(hl + 1)
                }
            },
        }
    }

    /// Walks the tree and reports whether no red node has a red child and all
    /// paths from the root to an empty subtree meet as many black nodes.
    pub fn validate(&self) -> (r: bool)
        ensures
            r ==> self.is_red_black(),
            self.is_red_black() && self.black_height() < u64::MAX ==> r,
    {
        self.check().is_some()
    }
}

impl<K: Ord, V> Tree<K, V> {
    /// The map of `items`, where a later entry wins over an earlier one with
    /// the same key; the same map as inserting the entries one by one, in
    /// order, with overwriting.
    pub fn from_entries(items: Vec<(K, V)>) -> (t: Self)
        requires
            total_order::<K>(),
        ensures
            t.wf(),
            t@ == map_of(items@),
    {
        let mut items = items;
        let ghost all = items@;
        let mut t = Tree::new();
        proof {
            assert(map_of(all).union_prefer_right(t@) =~= map_of(all));
        }
        while items.len() > 0
            invariant
                total_order::<K>(),
                t.wf(),
                map_of(all) == map_of(items@).union_prefer_right(t@),
            decreases items@.len(),
        {
            let ghost rest = items@;
            let (k, v) = items.pop().unwrap();
            let next = t.updated(k, v, false);
            proof {
                assert(rest.drop_last() == items@);
                assert(map_of(items@).union_prefer_right(next@) =~= map_of(rest).union_prefer_right(t@));
            }
            t = next;
        }
        proof {
            assert(map_of(items@) =~= Map::<K, V>::empty());
            assert(t@ =~= map_of(all));
        }
        t
    }
}

/// After an insertion with overwriting, the map holds the new value under its
/// key.
pub proof fn lemma_get_after_insert<K: Ord, V>(t: Tree<K, V>, k: K, v: V)
    ensures
        inserted(t@, k, v, true).contains_key(k),
        inserted(t@, k, v, true)[k] == v,
{
}

/// After a removal the key is absent.
pub proof fn lemma_get_after_remove<K: Ord, V>(t: Tree<K, V>, k: K)
    ensures
        !t@.remove(k).contains_key(k),
{
}

/// Removing an absent key leaves the same map.
pub proof fn lemma_remove_absent<K: Ord, V>(t: Tree<K, V>, k: K)
    requires
        !t@.contains_key(k),
    ensures
        t@.remove(k) == t@,
{
    assert(t@.remove(k) =~= t@);
}

/// An insertion or a removal under one key leaves every other key with what
/// it had.
pub proof fn lemma_other_keys_kept<K: Ord, V>(t: Tree<K, V>, k: K, v: V, overwrite: bool, j: K)
    requires
        j != k,
    ensures
        inserted(t@, k, v, overwrite).contains_key(j) == t@.contains_key(j),
        t@.contains_key(j) ==> inserted(t@, k, v, overwrite)[j] == t@[j],
        t@.remove(k).contains_key(j) == t@.contains_key(j),
        t@.contains_key(j) ==> t@.remove(k)[j] == t@[j],
{
}

} // verus!
