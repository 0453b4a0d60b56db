//! An unbalanced binary search tree with multiset semantics: inserting a value
//! already present increments a per-node occurrence count instead of adding a
//! node.

use vstd::prelude::*;

use crate::node::{
    descendant_count, kid_count_from, count_descendents_of, render_node, render_shape, Node, Shape,
};

verus! {

/// The result of a three-way comparison.
pub enum Cmp {
    Less,
    Equal,
    Greater,
}

/// A totally ordered, renderable value: the kind of value an ordered binary
/// tree can hold.
pub trait Orderable: Sized {
    /// The total order the tree is built over.
    spec fn le(self, other: Self) -> bool;

    /// The text this value renders as.
    spec fn text_spec(self) -> Seq<char>;

    proof fn le_reflexive(x: Self)
        ensures
            Self::le(x, x),
    ;

    proof fn le_transitive(x: Self, y: Self, z: Self)
        requires
            Self::le(x, y),
            Self::le(y, z),
        ensures
            Self::le(x, z),
    ;

    proof fn le_antisymmetric(x: Self, y: Self)
        requires
            Self::le(x, y),
            Self::le(y, x),
        ensures
            x == y,
    ;

    proof fn le_total(x: Self, y: Self)
        ensures
            Self::le(x, y) || Self::le(y, x),
    ;

    /// Decides the order between two values.
    fn compare(&self, other: &Self) -> (c: Cmp)
        ensures
            match c {
                Cmp::Less => self.le(*other) && *self != *other,
                Cmp::Equal => *self == *other,
                Cmp::Greater => other.le(*self) && *self != *other,
            },
    ;

    /// Renders this value as text.
    fn text(&self) -> (r: String)
        ensures
            r@ == self.text_spec(),
    ;
}

impl Orderable for i64 {
    open spec fn le(self, other: Self) -> bool {
        self <= other
    }

    open spec fn text_spec(self) -> Seq<char> {
        crate::text::int_rep(self as int)
    }

    proof fn le_reflexive(x: Self) {
    }

    proof fn le_transitive(x: Self, y: Self, z: Self) {
    }

    proof fn le_antisymmetric(x: Self, y: Self) {
    }

    proof fn le_total(x: Self, y: Self) {
    }

    fn compare(&self, other: &Self) -> (c: Cmp) {
        if *self < *other {
            Cmp::Less
        } else if *self == *other {
            Cmp::Equal
        } else {
            Cmp::Greater
        }
    }

    fn text(&self) -> (r: String) {
        crate::text::i64_to_string(*self)
    }
}

/// How many times `value` occurs in the multiset `m` represents.
pub open spec fn count_in<T>(m: Map<T, nat>, value: T) -> nat {
    if m.dom().contains(value) {
        m[value]
    } else {
        0
    }
}

/// The full mathematical view of a tree node: its value, how many times that
/// value was inserted, and its two optional subtrees.
pub struct BstV<T> {
    pub val: T,
    pub count: nat,
    pub left: Option<Box<BstV<T>>>,
    pub right: Option<Box<BstV<T>>>,
}

/// Where insertion of `value` leaves a tree: the node already holding the
/// value gets its count incremented; otherwise the search walks left on
/// smaller and right on greater, and a new leaf with count one appears at the
/// unique position where it falls off the tree. No other node's value, count
/// or links change, and no rebalancing ever occurs.
pub open spec fn spec_insert<T: Orderable>(v: BstV<T>, value: T) -> BstV<T>
    decreases v,
{
    if value == v.val {
        BstV { val: v.val, count: v.count + 1, left: v.left, right: v.right }
    } else if value.le(v.val) {
        BstV {
            val: v.val,
            count: v.count,
            left: Option::Some(Box::new(spec_insert_opt(v.left, value))),
            right: v.right,
        }
    } else {
        BstV {
            val: v.val,
            count: v.count,
            left: v.left,
            right: Option::Some(Box::new(spec_insert_opt(v.right, value))),
        }
    }
}

/// Insertion into an optional subtree: a fresh leaf when it is absent.
pub open spec fn spec_insert_opt<T: Orderable>(o: Option<Box<BstV<T>>>, value: T) -> BstV<T>
    decreases o,
{
    match o {
        Option::None => BstV { val: value, count: 1, left: Option::None, right: Option::None },
        Option::Some(b) => spec_insert(*b, value),
    }
}

/// The tree a node presents for rendering: its value's text, over the shapes
/// of the left and then the right subtree, absent ones skipped.
pub open spec fn bst_shape<T: Orderable>(v: BstV<T>) -> Shape
    decreases v,
{
    Shape {
        label: v.val.text_spec(),
        kids: match (v.left, v.right) {
            (Option::Some(l), Option::Some(r)) => seq![bst_shape(*l), bst_shape(*r)],
            (Option::Some(l), Option::None) => seq![bst_shape(*l)],
            (Option::None, Option::Some(r)) => seq![bst_shape(*r)],
            (Option::None, Option::None) => Seq::empty(),
        },
    }
}

/// A node of the unbalanced binary search tree: a value, the number of times
/// it was inserted, and up to two subtrees holding strictly smaller and
/// strictly greater values.
pub struct NodeBinaryUnbalanced<T: Orderable> {
    val: T,
    count: usize,
    left: Option<Box<NodeBinaryUnbalanced<T>>>,
    right: Option<Box<NodeBinaryUnbalanced<T>>>,
}

impl<T: Orderable> View for NodeBinaryUnbalanced<T> {
    type V = BstV<T>;

    closed spec fn view(&self) -> BstV<T> {
        NodeBinaryUnbalanced::node_view(*self)
    }
}

impl<T: Orderable> NodeBinaryUnbalanced<T> {
    /// The view of a node, formed recursively from its fields.
    pub closed spec fn node_view(n: NodeBinaryUnbalanced<T>) -> BstV<T>
        decreases n,
    {
        BstV {
            val: n.val,
            count: n.count as nat,
            left: Self::optional_node_view(n.left),
            right: Self::optional_node_view(n.right),
        }
    }

    pub closed spec fn optional_node_view(o: Option<Box<NodeBinaryUnbalanced<T>>>) -> Option<
        Box<BstV<T>>,
    >
        decreases o,
    {
        match o {
            Option::None => Option::None,
            Option::Some(b) => Option::Some(Box::new(Self::node_view(*b))),
        }
    }

    /// How many times each value in the subtree rooted here was inserted.
    pub closed spec fn as_map(self) -> Map<T, nat>
        decreases self,
    {
        Self::optional_as_map(self.left).union_prefer_right(
            Self::optional_as_map(self.right),
        ).insert(self.val, self.count as nat)
    }

    pub closed spec fn optional_as_map(node: Option<Box<NodeBinaryUnbalanced<T>>>) -> Map<T, nat>
        decreases node,
    {
        match node {
            Option::None => Map::empty(),
            Option::Some(node) => node.as_map(),
        }
    }

    /// The search-tree ordering property: everything on the left is strictly
    /// smaller than this node's value, everything on the right strictly
    /// greater, recursively; and every occurrence count is at least one.
    pub closed spec fn well_formed(self) -> bool
        decreases self,
    {
        &&& self.count >= 1
        &&& (forall|elem|
            #[trigger] Self::optional_as_map(self.left).dom().contains(elem) ==> elem.le(self.val)
                && elem != self.val)
        &&& (forall|elem|
            #[trigger] Self::optional_as_map(self.right).dom().contains(elem) ==> self.val.le(elem)
                && elem != self.val)
        &&& (match self.left {
            Option::Some(left_node) => left_node.well_formed(),
            Option::None => true,
        })
        &&& (match self.right {
            Option::Some(right_node) => right_node.well_formed(),
            Option::None => true,
        })
    }

    /// The values in the subtree rooted here, in in-order traversal order.
    pub closed spec fn in_order(self) -> Seq<T>
        decreases self,
    {
        Self::optional_in_order(self.left) + seq![self.val] + Self::optional_in_order(self.right)
    }

    pub closed spec fn optional_in_order(node: Option<Box<NodeBinaryUnbalanced<T>>>) -> Seq<T>
        decreases node,
    {
        match node {
            Option::None => Seq::empty(),
            Option::Some(node) => node.in_order(),
        }
    }

    /// Returns a new node with the given value, counted once.
    pub fn new(value: T) -> (r: Self)
        ensures
            r.well_formed(),
            r@ == (BstV { val: value, count: 1, left: Option::None, right: Option::None }),
            r.as_map() == Map::<T, nat>::empty().insert(value, 1),
            r.in_order() == seq![value],
            r.shape() == (Shape { label: value.text_spec(), kids: Seq::<Shape>::empty() }),
    {
        let r = NodeBinaryUnbalanced {
            val: value,
            count: 1,
            left: Option::None,
            right: Option::None,
        };
        proof {
            assert(r.as_map() =~= Map::<T, nat>::empty().insert(value, 1));
            assert(r.in_order() =~= seq![value]);
        }
        r
    }

    /// Inserts the given value into the tree under `self`: a new leaf is
    /// created where the search for `value` falls off the tree, while an
    /// insertion of a value already present only increments that node's
    /// occurrence count.
    pub fn insert(&mut self, value: T)
        requires
            old(self).well_formed(),
            count_in(old(self).as_map(), value) < usize::MAX,
        ensures
            final(self).well_formed(),
            final(self)@ == spec_insert(old(self)@, value),
            final(self).as_map() == old(self).as_map().insert(
                value,
                count_in(old(self).as_map(), value) + 1,
            ),
        decreases *old(self),
    {
        match value.compare(&self.val) {
            Cmp::Less => {
                proof {
                    if Self::optional_as_map(self.right).dom().contains(value) {
                        T::le_antisymmetric(value, self.val);
                    }
                    assert(!Self::optional_as_map(self.right).dom().contains(value));
                    assert(count_in(Self::optional_as_map(self.left), value) == count_in(
                        old(self).as_map(),
                        value,
                    ));
                }
                Self::insert_into_optional(&mut self.left, value);
                proof {
                    assert(!Self::optional_as_map(self.right).dom().contains(value));
                    assert(self.as_map() =~= old(self).as_map().insert(
                        value,
                        count_in(old(self).as_map(), value) + 1,
                    ));
                    assert(self@ == spec_insert(old(self)@, value));
                }
            },
            Cmp::Equal => {
                proof {
                    assert(!Self::optional_as_map(self.left).dom().contains(value));
                    assert(!Self::optional_as_map(self.right).dom().contains(value));
                    assert(self.as_map()[value] == self.count as nat);
                }
                self.count = self.count + 1;
                proof {
                    assert(self.as_map() =~= old(self).as_map().insert(
                        value,
                        count_in(old(self).as_map(), value) + 1,
                    ));
                    assert(self@ == spec_insert(old(self)@, value));
                }
            },
            Cmp::Greater => {
                proof {
                    if Self::optional_as_map(self.left).dom().contains(value) {
                        T::le_antisymmetric(self.val, value);
                    }
                    assert(!Self::optional_as_map(self.left).dom().contains(value));
                    assert(count_in(Self::optional_as_map(self.right), value) == count_in(
                        old(self).as_map(),
                        value,
                    ));
                }
                Self::insert_into_optional(&mut self.right, value);
                proof {
                    assert(!Self::optional_as_map(self.left).dom().contains(value));
                    assert(self.as_map() =~= old(self).as_map().insert(
                        value,
                        count_in(old(self).as_map(), value) + 1,
                    ));
                    assert(!value.le(old(self)@.val)) by {
                        if value.le(old(self).val) {
                            T::le_antisymmetric(value, old(self).val);
                        }
                    }
                    assert(self@ == spec_insert(old(self)@, value));
                }
            },
        }
    }

    /// In-order traversal law: for every well-formed tree — and insertion
    /// keeps every tree well formed — the in-order traversal yields the
    /// values in strictly increasing order, its length is the number of
    /// distinct values held (duplicates collapse into counts), and the number
    /// of nodes below the root is one less than that length.
    pub proof fn lemma_in_order_sorted(self)
        requires
            self.well_formed(),
        ensures
            forall|i: int, j: int|
                #![trigger self.in_order()[i], self.in_order()[j]]
                0 <= i < j < self.in_order().len() ==> self.in_order()[i].le(self.in_order()[j])
                    && self.in_order()[i] != self.in_order()[j],
            self.in_order().to_set() == self.as_map().dom(),
            self.in_order().no_duplicates(),
            self.in_order().len() == self.as_map().dom().len(),
            descendant_count(bst_shape(self@)) + 1 == self.in_order().len(),
        decreases self,
    {
        let lseq = Self::optional_in_order(self.left);
        let rseq = Self::optional_in_order(self.right);
        let lmap = Self::optional_as_map(self.left);
        let rmap = Self::optional_as_map(self.right);
        let whole = self.in_order();
        let llen = lseq.len() as int;
        match self.left {
            Option::Some(l) => l.lemma_in_order_sorted(),
            Option::None => {
                assert(lseq.to_set() =~= lmap.dom());
            },
        }
        match self.right {
            Option::Some(r) => r.lemma_in_order_sorted(),
            Option::None => {
                assert(rseq.to_set() =~= rmap.dom());
            },
        }
        // The traversal is the left segment, this value, the right segment.
        assert(whole.len() == lseq.len() + 1 + rseq.len());
        assert(forall|i: int| 0 <= i < llen ==> whole[i] == lseq[i]);
        assert(whole[llen] == self.val);
        assert(forall|j: int|
            llen + 1 <= j < whole.len() ==> whole[j] == rseq[j - llen - 1]);
        // Every element of a segment is in that side's map.
        assert(forall|i: int| 0 <= i < llen ==> lmap.dom().contains(#[trigger] lseq[i])) by {
            assert(forall|i: int|
                0 <= i < llen ==> lseq.to_set().contains(#[trigger] lseq[i]));
        }
        assert(forall|j: int|
            0 <= j < rseq.len() ==> rmap.dom().contains(#[trigger] rseq[j])) by {
            assert(forall|j: int|
                0 <= j < rseq.len() ==> rseq.to_set().contains(#[trigger] rseq[j]));
        }
        // Strictly increasing across the three segments.
        assert forall|i: int, j: int|
            #![trigger whole[i], whole[j]]
            0 <= i < j < whole.len() implies whole[i].le(whole[j]) && whole[i] != whole[j] by {
            let x = whole[i];
            let y = whole[j];
            if i < llen && j < llen {
            } else if i < llen && j == llen {
            } else if i == llen && j > llen {
            } else if i < llen && j > llen {
                T::le_transitive(x, self.val, y);
                if x == y {
                    T::le_antisymmetric(x, self.val);
                }
            } else {
                // both in the right segment
            }
        }
        assert(whole.no_duplicates()) by {
            assert(forall|i: int, j: int|
                0 <= i < whole.len() && 0 <= j < whole.len() && i != j ==> #[trigger] whole[i]
                    != #[trigger] whole[j]);
        }
        // The traversal's set of values is the map's domain.
        assert(whole.to_set() =~= self.as_map().dom()) by {
            assert(self.as_map().dom() =~= lmap.dom().union(rmap.dom()).insert(self.val));
            assert forall|x: T| whole.to_set().contains(x) implies self.as_map().dom().contains(
                x,
            ) by {
                let i = choose|i: int| 0 <= i < whole.len() && whole[i] == x;
                if i < llen {
                    assert(lseq.to_set().contains(x));
                } else if i > llen {
                    assert(rseq.to_set().contains(x));
                }
            }
            assert forall|x: T| self.as_map().dom().contains(x) implies whole.to_set().contains(
                x,
            ) by {
                if lmap.dom().contains(x) {
                    assert(lseq.to_set().contains(x));
                    let i = choose|i: int| 0 <= i < lseq.len() && lseq[i] == x;
                    assert(whole[i] == x);
                } else if rmap.dom().contains(x) {
                    assert(rseq.to_set().contains(x));
                    let j = choose|j: int| 0 <= j < rseq.len() && rseq[j] == x;
                    assert(whole[llen + 1 + j] == x);
                } else {
                    assert(whole[llen] == x);
                }
            }
        }
        whole.unique_seq_to_set();
        // One node per traversal entry.
        let s = bst_shape(self@);
        match (self.left, self.right) {
            (Option::Some(l), Option::Some(r)) => {
                assert(self@.left == Option::Some(Box::new(Self::node_view(*l))));
                assert(self@.right == Option::Some(Box::new(Self::node_view(*r))));
                assert(kid_count_from(s.kids, 2) == 0);
                assert(kid_count_from(s.kids, 1) == 1 + descendant_count(bst_shape(r@)));
                assert(kid_count_from(s.kids, 0) == 2 + descendant_count(bst_shape(l@))
                    + descendant_count(bst_shape(r@)));
            },
            (Option::Some(l), Option::None) => {
                assert(self@.left == Option::Some(Box::new(Self::node_view(*l))));
                assert(self@.right == Option::<Box<BstV<T>>>::None);
                assert(kid_count_from(s.kids, 1) == 0);
                assert(kid_count_from(s.kids, 0) == 1 + descendant_count(bst_shape(l@)));
            },
            (Option::None, Option::Some(r)) => {
                assert(self@.left == Option::<Box<BstV<T>>>::None);
                assert(self@.right == Option::Some(Box::new(Self::node_view(*r))));
                assert(kid_count_from(s.kids, 1) == 0);
                assert(kid_count_from(s.kids, 0) == 1 + descendant_count(bst_shape(r@)));
            },
            (Option::None, Option::None) => {
                assert(kid_count_from(s.kids, 0) == 0);
            },
        }
    }

    fn insert_into_optional(node: &mut Option<Box<NodeBinaryUnbalanced<T>>>, value: T)
        requires
            old(node).is_some() ==> old(node).unwrap().well_formed(),
            count_in(Self::optional_as_map(*old(node)), value) < usize::MAX,
        ensures
            final(node).is_some(),
            final(node).unwrap().well_formed(),
            Self::optional_node_view(*final(node)) == Option::Some(
                Box::new(spec_insert_opt(Self::optional_node_view(*old(node)), value)),
            ),
            Self::optional_as_map(*final(node)) == Self::optional_as_map(*old(node)).insert(
                value,
                count_in(Self::optional_as_map(*old(node)), value) + 1,
            ),
        decreases *old(node),
    {
        match node.take() {
            Option::None => {
                *node = Option::Some(Box::new(Self::new(value)));
                proof {
                    assert(Self::optional_as_map(*node) =~= Self::optional_as_map(
                        *old(node),
                    ).insert(value, count_in(Self::optional_as_map(*old(node)), value) + 1));
                    assert(Self::optional_node_view(*node) == Option::Some(
                        Box::new(spec_insert_opt(Self::optional_node_view(*old(node)), value)),
                    ));
                }
            },
            Option::Some(mut boxed_node) => {
                (&mut *boxed_node).insert(value);
                *node = Option::Some(boxed_node);
                proof {
                    assert(Self::optional_node_view(*node) == Option::Some(
                        Box::new(spec_insert_opt(Self::optional_node_view(*old(node)), value)),
                    ));
                }
            },
        }
    }
}

impl<T: Orderable> Node for NodeBinaryUnbalanced<T> {
    open spec fn shape(&self) -> Shape {
        bst_shape(self@)
    }

    open spec fn valid(&self) -> bool {
        true
    }

    /// Returns the text of the value stored in this node.
    fn value(&self) -> (r: String) {
        self.val.text()
    }

    /// Returns the left child, if present, and then the right child, if
    /// present.
    fn children(&self) -> (r: Vec<&Self>) {
        let mut ch: Vec<&Self> = Vec::new();
        match &self.left {
            Option::Some(l) => {
                ch.push(&**l);
            },
            Option::None => {},
        }
        match &self.right {
            Option::Some(r) => {
                ch.push(&**r);
            },
            Option::None => {},
        }
        ch
    }
}

impl<T: Orderable> NodeBinaryUnbalanced<T> {
    /// Returns the number of children of this node, and each of their
    /// children, recursively.
    pub fn count_descendents(&self) -> (n: usize)
        requires
            descendant_count(bst_shape(self@)) <= usize::MAX,
        ensures
            n == descendant_count(bst_shape(self@)),
    {
        count_descendents_of(self)
    }

    /// Renders the tree rooted at this node.
    pub fn render(&self) -> (r: String)
        ensures
            r@ == render_shape(bst_shape(self@)),
    {
        render_node(self)
    }
}

} // verus!
