//! The generic tree abstraction: an abstract `Shape` (a label plus an ordered
//! sequence of child shapes), a specification of the branch-drawn text
//! rendering, and the [`Node`] trait every displayable tree implements.

use vstd::prelude::*;

verus! {

/// The abstract form of a renderable tree: a text label and an ordered,
/// finite sequence of child shapes.
pub struct Shape {
    pub label: Seq<char>,
    pub kids: Seq<Shape>,
}

/// The marker a node draws before its own label: a tee for a node with later
/// siblings, an elbow for the last sibling.
pub open spec fn sib_marker(is_last: bool) -> Seq<char> {
    if is_last {
        "└── "@
    } else {
        "├── "@
    }
}

/// What a node contributes to the prefix of every line below it: a
/// continuation bar while later siblings remain, blank space otherwise.
pub open spec fn kid_indent(is_last: bool) -> Seq<char> {
    if is_last {
        "    "@
    } else {
        "│   "@
    }
}

/// The lines contributed by a non-root node and everything under it: a
/// newline, the accumulated ancestor prefix, this node's marker and label,
/// then its children's lines.
pub open spec fn render_child(t: Shape, prefix: Seq<char>, is_last: bool) -> Seq<char>
    decreases t, 0int,
{
    "\n"@ + prefix + sib_marker(is_last) + t.label + render_kids_from(
        t.kids,
        prefix + kid_indent(is_last),
        0,
    )
}

/// The lines contributed by the children `kids[i..]`, each knowing whether it
/// is the last child.
pub open spec fn render_kids_from(kids: Seq<Shape>, prefix: Seq<char>, i: int) -> Seq<char>
    decreases kids, kids.len() - i,
{
    if 0 <= i < kids.len() {
        render_child(kids[i], prefix, i == kids.len() - 1) + render_kids_from(kids, prefix, i + 1)
    } else {
        Seq::empty()
    }
}

/// The full rendering of a tree: the root's label with no prefix, then one
/// line per descendant node, with no trailing newline.
pub open spec fn render_shape(t: Shape) -> Seq<char> {
    t.label + render_kids_from(t.kids, Seq::empty(), 0)
}

/// The number of nodes strictly below the root of `t`.
pub open spec fn descendant_count(t: Shape) -> nat
    decreases t, 0int,
{
    kid_count_from(t.kids, 0)
}

/// The number of nodes in the subtrees `kids[i..]`, roots included.
pub open spec fn kid_count_from(kids: Seq<Shape>, i: int) -> nat
    decreases kids, kids.len() - i,
{
    if 0 <= i < kids.len() {
        1 + descendant_count(kids[i]) + kid_count_from(kids, i + 1)
    } else {
        0
    }
}

/// [`Node`] defines common methods for nodes in a displayable tree.
pub trait Node: Sized {
    /// The abstract tree this node presents for rendering: its label and, in
    /// render order, the shapes of its children.
    spec fn shape(&self) -> Shape;

    /// Whether this node may be read: each tree type names its own
    /// well-formedness here, and its constructors and methods maintain it.
    spec fn valid(&self) -> bool;

    /// Returns the displayable value represented by this node.
    fn value(&self) -> (r: String)
        requires
            self.valid(),
        ensures
            r@ == self.shape().label,
    ;

    /// Returns the children of this node, in render order. Children of those
    /// children are not included.
    fn children(&self) -> (r: Vec<&Self>)
        requires
            self.valid(),
        ensures
            r@.len() == self.shape().kids.len(),
            forall|i: int|
                0 <= i < r@.len() ==> (#[trigger] r@[i]).shape() == self.shape().kids[i],
            forall|i: int| 0 <= i < r@.len() ==> (#[trigger] r@[i]).valid(),
    ;

    /// Returns the number of direct children of this node.
    fn count_children(&self) -> (n: usize)
        requires
            self.valid(),
        ensures
            n == self.shape().kids.len(),
    {
        self.children().len()
    }
}

/// Returns the number of children of the given node, and each of their
/// children, recursively. Every tree type also offers this as its
/// `count_descendents` method.
pub fn count_descendents_of<T: Node>(t: &T) -> (n: usize)
    requires
        t.valid(),
        descendant_count(t.shape()) <= usize::MAX,
    ensures
        n == descendant_count(t.shape()),
    decreases t.shape(),
{
    let kids = t.children();
    let len = kids.len();
    let mut n: usize = 0;
    let mut i: usize = 0;
    while i < len
        invariant
            i <= len,
            len == t.shape().kids.len(),
            kids@.len() == len,
            forall|j: int| 0 <= j < len ==> (#[trigger] kids@[j]).shape() == t.shape().kids[j],
            forall|j: int| 0 <= j < len ==> (#[trigger] kids@[j]).valid(),
            n + kid_count_from(t.shape().kids, i as int) == descendant_count(t.shape()),
            descendant_count(t.shape()) <= usize::MAX,
        decreases len - i,
    {
        proof {
            assert(decreases_to!(t.shape() => t.shape().kids));
            assert(decreases_to!(t.shape().kids => t.shape().kids[i as int]));
        }
        let below = count_descendents_of(kids[i]);
        n = n + 1 + below;
        i = i + 1;
    }
    n
}

/// Renders the tree rooted at the given node: the root's label on the first
/// line, every other node on a line of its own, prefixed by the markers of
/// its ancestors. Rendering never mutates the tree. Every tree type also
/// offers this as its `render` method.
pub fn render_node<T: Node>(t: &T) -> (r: String)
    requires
        t.valid(),
    ensures
        r@ == render_shape(t.shape()),
{
    let mut out = t.value();
    let kids = t.children();
    let prefix = String::new();
    let n = kids.len();
    let mut i: usize = 0;
    proof {
        assert(out@ + render_kids_from(t.shape().kids, Seq::empty(), 0) =~= render_shape(
            t.shape(),
        ));
    }
    while i < n
        invariant
            i <= n,
            n == t.shape().kids.len(),
            kids@.len() == n,
            forall|j: int| 0 <= j < n ==> (#[trigger] kids@[j]).shape() == t.shape().kids[j],
            forall|j: int| 0 <= j < n ==> (#[trigger] kids@[j]).valid(),
            prefix@ == Seq::<char>::empty(),
            out@ + render_kids_from(t.shape().kids, Seq::empty(), i as int) == render_shape(
                t.shape(),
            ),
        decreases n - i,
    {
        let ghost pre = out@;
        print_subtree(kids[i], &prefix, i == n - 1, &mut out);
        proof {
            assert(out@ + render_kids_from(t.shape().kids, Seq::empty(), i + 1) =~= pre
                + render_kids_from(t.shape().kids, Seq::empty(), i as int));
        }
        i = i + 1;
    }
    out
}

/// Appends to `out` the lines of the non-root node `t` and everything under
/// it, given the accumulated prefix of its ancestors and whether it is its
/// parent's last child.
fn print_subtree<T: Node>(t: &T, prefix: &String, is_last: bool, out: &mut String)
    requires
        t.valid(),
    ensures
        final(out)@ == old(out)@ + render_child(t.shape(), prefix@, is_last),
    decreases t.shape(),
{
    out.append("\n");
    out.append(prefix.as_str());
    if is_last {
        out.append("└── ");
    } else {
        out.append("├── ");
    }
    let label = t.value();
    out.append(label.as_str());
    let mut kid_prefix = prefix.clone();
    if is_last {
        kid_prefix.append("    ");
    } else {
        kid_prefix.append("│   ");
    }
    let kids = t.children();
    let n = kids.len();
    let mut i: usize = 0;
    proof {
        assert(kid_prefix@ == prefix@ + kid_indent(is_last));
        assert(out@ + render_kids_from(t.shape().kids, kid_prefix@, 0) =~= old(out)@
            + render_child(t.shape(), prefix@, is_last));
    }
    while i < n
        invariant
            i <= n,
            n == t.shape().kids.len(),
            kids@.len() == n,
            forall|j: int| 0 <= j < n ==> (#[trigger] kids@[j]).shape() == t.shape().kids[j],
            forall|j: int| 0 <= j < n ==> (#[trigger] kids@[j]).valid(),
            out@ + render_kids_from(t.shape().kids, kid_prefix@, i as int) == old(out)@
                + render_child(t.shape(), prefix@, is_last),
        decreases n - i,
    {
        let ghost pre = out@;
        proof {
            assert(decreases_to!(t.shape() => t.shape().kids));
            assert(decreases_to!(t.shape().kids => t.shape().kids[i as int]));
        }
        print_subtree(kids[i], &kid_prefix, i == n - 1, out);
        proof {
            assert(out@ + render_kids_from(t.shape().kids, kid_prefix@, i + 1) =~= pre
                + render_kids_from(t.shape().kids, kid_prefix@, i as int));
        }
        i = i + 1;
    }
}

/// Rendering is deterministic and idempotent: the rendered text is a function
/// of the tree's shape alone, so rendering an unmodified tree twice yields
/// two identical texts.
pub proof fn lemma_render_deterministic(t: Shape, a: Seq<char>, b: Seq<char>)
    requires
        a == render_shape(t),
        b == render_shape(t),
    ensures
        a == b,
{
}

} // verus!
