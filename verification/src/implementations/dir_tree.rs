//! A read-only snapshot of a directory hierarchy: path entries annotated with
//! root and symbolic-link status, pre-sorted by path, rendered exactly like
//! the other trees. The snapshot is built once from the outside; nothing here
//! ever reads the filesystem.

use vstd::prelude::*;

use crate::node::{count_descendents_of, descendant_count, render_node, render_shape, Node, Shape};
use crate::text::{lex_lt, str_lex_lt};

verus! {

/// What makes a snapshot entry special: nothing, being the root the scan
/// started at, or being a symbolic link, with the raw target text the
/// filesystem reported.
pub enum SpecialFile {
    Ordinary,
    Root,
    Symlink(String),
}

/// The view of an entry's special status.
pub enum SpecialV {
    Ordinary,
    Root,
    Symlink(Seq<char>),
}

/// The mathematical view of a snapshot entry.
pub struct DirV {
    pub path: Seq<char>,
    pub special: SpecialV,
    pub kids: Seq<DirV>,
}

/// A node of a directory snapshot: a path, its special status, and the
/// entries under it, kept sorted by path.
pub struct DirTree {
    path: String,
    special: SpecialFile,
    children: Vec<DirTree>,
}

pub open spec fn special_view(s: SpecialFile) -> SpecialV {
    match s {
        SpecialFile::Ordinary => SpecialV::Ordinary,
        SpecialFile::Root => SpecialV::Root,
        SpecialFile::Symlink(t) => SpecialV::Symlink(t@),
    }
}

/// The view of a snapshot entry, formed recursively from its fields.
pub closed spec fn dir_view(t: DirTree) -> DirV
    decreases t, 1int,
{
    DirV {
        path: t.path@,
        special: special_view(t.special),
        kids: dir_kids_view(t.children@, 0),
    }
}

/// The views of the entries `s[i..]`, in order.
pub closed spec fn dir_kids_view(s: Seq<DirTree>, i: int) -> Seq<DirV>
    decreases s, s.len() - i,
{
    if 0 <= i < s.len() {
        seq![dir_view(s[i])] + dir_kids_view(s, i + 1)
    } else {
        Seq::empty()
    }
}

proof fn lemma_dir_kids_view(s: Seq<DirTree>, i: int)
    requires
        0 <= i <= s.len(),
    ensures
        dir_kids_view(s, i).len() == s.len() - i,
        forall|j: int| i <= j < s.len() ==> dir_kids_view(s, i)[j - i] == dir_view(s[j]),
    decreases s.len() - i,
{
    if i < s.len() {
        lemma_dir_kids_view(s, i + 1);
    }
}

impl View for DirTree {
    type V = DirV;

    closed spec fn view(&self) -> DirV {
        dir_view(*self)
    }
}

/// The views of a sequence of entries, element by element.
pub open spec fn views_of(s: Seq<DirTree>) -> Seq<DirV> {
    Seq::new(s.len(), |i: int| s[i]@)
}

/// Whether entry `a` must stay strictly before entry `b`: the path order.
pub open spec fn dir_before(a: DirV, b: DirV) -> bool {
    lex_lt(a.path, b.path)
}

/// Inserts an entry into an already sorted run, after every entry whose path
/// is not greater: the stable insertion the constructors sort by.
pub open spec fn insert_dir(x: DirV, s: Seq<DirV>) -> Seq<DirV>
    decreases s.len(),
{
    if s.len() == 0 {
        seq![x]
    } else if !dir_before(x, s[0]) {
        seq![s[0]] + insert_dir(x, s.skip(1))
    } else {
        seq![x] + s
    }
}

/// The first `n` entries of `s`, sorted by path by repeated insertion.
pub open spec fn sort_dirs_upto(s: Seq<DirV>, n: int) -> Seq<DirV>
    decreases n,
{
    if 0 < n <= s.len() {
        insert_dir(s[n - 1], sort_dirs_upto(s, n - 1))
    } else {
        Seq::empty()
    }
}

/// The entries of `s`, sorted by path.
pub open spec fn sort_dirs(s: Seq<DirV>) -> Seq<DirV> {
    sort_dirs_upto(s, s.len() as int)
}

/// Whether a run of entries stands in path order: no later entry's path is
/// smaller than an earlier one's.
pub open spec fn dirs_ordered(s: Seq<DirV>) -> bool {
    forall|i: int, j: int| #![trigger s[i], s[j]] 0 <= i < j < s.len() ==> !dir_before(s[j], s[i])
}

/// Inserting an entry adds it to the run's contents and changes nothing else.
proof fn lemma_insert_dir_multiset(x: DirV, s: Seq<DirV>)
    ensures
        insert_dir(x, s).to_multiset() == s.to_multiset().insert(x),
    decreases s.len(),
{
    broadcast use vstd::seq_lib::group_to_multiset_ensures;

    if s.len() == 0 {
        assert(seq![x] =~= Seq::<DirV>::empty().push(x));
        assert(insert_dir(x, s).to_multiset() =~= s.to_multiset().insert(x));
    } else if !dir_before(x, s[0]) {
        lemma_insert_dir_multiset(x, s.skip(1));
        vstd::seq_lib::lemma_multiset_commutative(seq![s[0]], insert_dir(x, s.skip(1)));
        vstd::seq_lib::lemma_multiset_commutative(seq![s[0]], s.skip(1));
        assert(s =~= seq![s[0]] + s.skip(1));
        assert(insert_dir(x, s).to_multiset() =~= s.to_multiset().insert(x));
    } else {
        vstd::seq_lib::lemma_multiset_commutative(seq![x], s);
        assert(seq![x] =~= Seq::<DirV>::empty().push(x));
        assert(insert_dir(x, s).to_multiset() =~= s.to_multiset().insert(x));
    }
}

proof fn lemma_sort_dirs_permutes_upto(s: Seq<DirV>, n: int)
    requires
        0 <= n <= s.len(),
    ensures
        sort_dirs_upto(s, n).to_multiset() == s.take(n).to_multiset(),
    decreases n,
{
    broadcast use vstd::seq_lib::group_to_multiset_ensures;

    if 0 < n {
        lemma_sort_dirs_permutes_upto(s, n - 1);
        lemma_insert_dir_multiset(s[n - 1], sort_dirs_upto(s, n - 1));
        assert(s.take(n) =~= s.take(n - 1).push(s[n - 1]));
    } else {
        assert(s.take(0) =~= Seq::<DirV>::empty());
    }
}

/// Sorting reorders the entries and loses none: the snapshot holds exactly
/// the entries it was given.
pub proof fn lemma_sort_dirs_permutation(s: Seq<DirV>)
    ensures
        sort_dirs(s).to_multiset() == s.to_multiset(),
{
    lemma_sort_dirs_permutes_upto(s, s.len() as int);
    assert(s.take(s.len() as int) =~= s);
}

/// Inserting into an ordered run keeps it ordered.
proof fn lemma_insert_dir_sorted(x: DirV, s: Seq<DirV>)
    requires
        dirs_ordered(s),
    ensures
        dirs_ordered(insert_dir(x, s)),
    decreases s.len(),
{
    let r = insert_dir(x, s);
    if s.len() == 0 {
    } else if !dir_before(x, s[0]) {
        let tail = s.skip(1);
        assert(forall|t: int| 0 <= t < tail.len() ==> (#[trigger] tail[t]) == s[t + 1]);
        assert(dirs_ordered(tail)) by {
            assert forall|i: int, j: int|
                #![trigger tail[i], tail[j]]
                0 <= i < j < tail.len() implies !dir_before(tail[j], tail[i]) by {
                assert(tail[i] == s[i + 1]);
                assert(tail[j] == s[j + 1]);
            }
        }
        lemma_insert_dir_sorted(x, tail);
        let inner = insert_dir(x, tail);
        broadcast use vstd::seq_lib::group_to_multiset_ensures;

        lemma_insert_dir_multiset(x, tail);
        assert(r =~= seq![s[0]] + inner);
        assert forall|i: int, j: int|
            #![trigger r[i], r[j]]
            0 <= i < j < r.len() implies !dir_before(r[j], r[i]) by {
            if i == 0 {
                let e = r[j];
                assert(e == inner[j - 1]);
                assert(inner.contains(e));
                assert(inner.to_multiset().count(e) > 0);
                if e == x {
                    assert(!dir_before(x, s[0]));
                } else {
                    assert(tail.to_multiset().count(e) > 0);
                    assert(tail.contains(e));
                    let k = choose|k: int| 0 <= k < tail.len() && tail[k] == e;
                    assert(s[k + 1] == e);
                    assert(!dir_before(s[k + 1], s[0]));
                }
            } else {
                assert(r[i] == inner[i - 1]);
                assert(r[j] == inner[j - 1]);
            }
        }
    } else {
        assert(r =~= seq![x] + s);
        assert forall|i: int, j: int|
            #![trigger r[i], r[j]]
            0 <= i < j < r.len() implies !dir_before(r[j], r[i]) by {
            if i == 0 {
                let e = r[j];
                assert(e == s[j - 1]);
                if dir_before(e, x) {
                    crate::text::lemma_lex_lt_transitive(e.path, x.path, s[0].path);
                    if j == 1 {
                        crate::text::lemma_lex_lt_irreflexive(s[0].path);
                    } else {
                        assert(!dir_before(s[j - 1], s[0]));
                    }
                }
            } else {
                assert(r[i] == s[i - 1]);
                assert(r[j] == s[j - 1]);
            }
        }
    }
}

proof fn lemma_sort_dirs_ordered_upto(s: Seq<DirV>, n: int)
    requires
        0 <= n <= s.len(),
    ensures
        dirs_ordered(sort_dirs_upto(s, n)),
    decreases n,
{
    if 0 < n {
        lemma_sort_dirs_ordered_upto(s, n - 1);
        lemma_insert_dir_sorted(s[n - 1], sort_dirs_upto(s, n - 1));
    }
}

/// Sorting really orders the entries by path: no later entry's path is
/// smaller than an earlier one's.
pub proof fn lemma_sort_dirs_sorted(s: Seq<DirV>)
    ensures
        dirs_ordered(sort_dirs(s)),
{
    lemma_sort_dirs_ordered_upto(s, s.len() as int);
}

/// The base name of a path: what follows its last separator, or the whole
/// path when it has none.
pub open spec fn base_name(p: Seq<char>) -> Seq<char>
    decreases p.len(),
{
    if p.len() == 0 {
        p
    } else if p.last() == '/' {
        Seq::empty()
    } else {
        base_name(p.drop_last()).push(p.last())
    }
}

/// The text a snapshot entry renders as: the full path for the root, the base
/// name for an ordinary entry, and `name -> target` for a symbolic link, the
/// target text unresolved.
pub open spec fn dir_label(v: DirV) -> Seq<char> {
    match v.special {
        SpecialV::Ordinary => base_name(v.path),
        SpecialV::Root => v.path,
        SpecialV::Symlink(target) => base_name(v.path) + " -> "@ + target,
    }
}

/// The tree a snapshot entry presents for rendering: its label, over its
/// stored (path-sorted) entries. No comparison or filesystem work is left for
/// rendering time.
pub open spec fn dir_shape(v: DirV) -> Shape
    decreases v, 1int,
{
    Shape { label: dir_label(v), kids: dir_shapes(v.kids, 0) }
}

/// The shapes of the entries `kids[i..]`, in order.
pub open spec fn dir_shapes(kids: Seq<DirV>, i: int) -> Seq<Shape>
    decreases kids, kids.len() - i,
{
    if 0 <= i < kids.len() {
        seq![dir_shape(kids[i])] + dir_shapes(kids, i + 1)
    } else {
        Seq::empty()
    }
}

pub proof fn lemma_dir_shapes(kids: Seq<DirV>, i: int)
    requires
        0 <= i <= kids.len(),
    ensures
        dir_shapes(kids, i).len() == kids.len() - i,
        forall|j: int| i <= j < kids.len() ==> dir_shapes(kids, i)[j - i] == dir_shape(kids[j]),
    decreases kids.len() - i,
{
    if i < kids.len() {
        lemma_dir_shapes(kids, i + 1);
    }
}

/// The base name of a path whose separator stands at `j`, with none after it,
/// is everything after `j`.
proof fn lemma_base_name_suffix(p: Seq<char>, j: int)
    requires
        0 <= j < p.len(),
        p[j] == '/',
        forall|k: int| j < k < p.len() ==> p[k] != '/',
    ensures
        base_name(p) == p.skip(j + 1),
    decreases p.len(),
{
    if j == p.len() - 1 {
        assert(base_name(p) =~= p.skip(j + 1));
    } else {
        assert(forall|k: int| j < k < p.drop_last().len() ==> p.drop_last()[k] != '/');
        lemma_base_name_suffix(p.drop_last(), j);
        assert(p.drop_last().skip(j + 1).push(p.last()) =~= p.skip(j + 1));
    }
}

/// The base name of a path without separators is the path itself.
proof fn lemma_base_name_whole(p: Seq<char>)
    requires
        forall|k: int| 0 <= k < p.len() ==> p[k] != '/',
    ensures
        base_name(p) == p,
    decreases p.len(),
{
    if p.len() > 0 {
        lemma_base_name_whole(p.drop_last());
        assert(p.drop_last().push(p.last()) =~= p);
    }
}

/// Returns the base name of a path string: everything after its last
/// separator.
fn base_name_exec(p: &str) -> (r: String)
    ensures
        r@ == base_name(p@),
{
    let len = p.unicode_len();
    let mut cut: usize = 0;
    let mut i: usize = 0;
    while i < len
        invariant
            i <= len,
            len == p@.len(),
            cut <= i,
            cut > 0 ==> p@[cut - 1] == '/',
            forall|k: int| cut <= k < i ==> p@[k] != '/',
        decreases len - i,
    {
        if p.get_char(i) == '/' {
            cut = i + 1;
        }
        i = i + 1;
    }
    proof {
        if cut == 0 {
            lemma_base_name_whole(p@);
            assert(p@.skip(0) =~= p@);
        } else {
            lemma_base_name_suffix(p@, cut - 1);
        }
    }
    let r = p.substring_char(cut, len).to_owned();
    proof {
        assert(r@ =~= base_name(p@));
    }
    r
}

impl DirTree {
    /// Returns the root of a directory snapshot: the given path over the
    /// given entries, which are sorted here by path. The one-time recursive
    /// scan is the caller's collaborator: it reads the filesystem, builds
    /// each entry bottom-up with [`DirTree::new_entry`], and hands the
    /// results in; any error during the scan is the caller's to surface
    /// before anything is built. The root renders as its full path text.
    pub fn new(path: String, children: Vec<DirTree>) -> (r: Self)
        ensures
            r@.path == path@,
            r@.special == SpecialV::Root,
            r@.kids == sort_dirs(views_of(children@)),
    {
        Self::build(path, SpecialFile::Root, children)
    }

    /// Returns a non-root snapshot entry: an ordinary entry when no symlink
    /// target is given, a symbolic-link entry otherwise. A symbolic link is
    /// never traversed below the root, so it carries no entries. The given
    /// entries are sorted here by path.
    pub fn new_entry(path: String, symlink_target: Option<String>, children: Vec<DirTree>) -> (r:
        Self)
        requires
            symlink_target.is_some() ==> children@.len() == 0,
        ensures
            r@.path == path@,
            r@.special == match symlink_target {
                Option::Some(t) => SpecialV::Symlink(t@),
                Option::None => SpecialV::Ordinary,
            },
            r@.kids == sort_dirs(views_of(children@)),
    {
        let special = match symlink_target {
            Option::Some(t) => SpecialFile::Symlink(t),
            Option::None => SpecialFile::Ordinary,
        };
        Self::build(path, special, children)
    }

    /// Builds a node, sorting the given entries by path.
    fn build(path: String, special: SpecialFile, children: Vec<DirTree>) -> (r: Self)
        ensures
            r@.path == path@,
            r@.special == special_view(special),
            r@.kids == sort_dirs(views_of(children@)),
    {
        let ghost input = views_of(children@);
        let mut rest = children;
        let n = rest.len();
        let mut out: Vec<DirTree> = Vec::new();
        let mut i: usize = 0;
        proof {
            assert(views_of(rest@) =~= input.skip(0));
        }
        while i < n
            invariant
                i <= n,
                n == input.len(),
                rest@.len() == n - i,
                views_of(rest@) == input.skip(i as int),
                out@.len() == i,
                views_of(out@) == sort_dirs_upto(input, i as int),
            decreases n - i,
        {
            let ghost rest_pre = rest@;
            let x = rest.remove(0);
            proof {
                rest_pre.remove_ensures(0);
                assert(rest@ == rest_pre.remove(0));
                assert forall|t: int| 0 <= t < rest@.len() implies views_of(rest@)[t] == input.skip(
                    i + 1,
                )[t] by {
                    assert(rest_pre.remove(0)[t] == rest_pre[t + 1]);
                    assert(views_of(rest_pre)[t + 1] == rest_pre[t + 1]@);
                    assert(views_of(rest_pre)[t + 1] == input.skip(i as int)[t + 1]);
                }
                assert(views_of(rest@) =~= input.skip(i + 1));
                assert(views_of(rest_pre)[0] == rest_pre[0]@);
                assert(x@ == input[i as int]);
            }
            let olen = out.len();
            let mut p: usize = 0;
            while p < olen && !str_lex_lt(x.path.as_str(), out[p].path.as_str())
                invariant
                    p <= olen,
                    olen == out@.len(),
                    forall|t: int| 0 <= t < p ==> !dir_before(x@, (#[trigger] out@[t])@),
                decreases olen - p,
            {
                proof {
                    assert(out@[p as int]@.path == out@[p as int].path@);
                    assert(x@.path == x.path@);
                }
                p = p + 1;
            }
            proof {
                if p < olen {
                    assert(out@[p as int]@.path == out@[p as int].path@);
                    assert(x@.path == x.path@);
                    assert(dir_before(x@, out@[p as int]@));
                }
            }
            let ghost run = views_of(out@);
            proof {
                assert(forall|t: int| 0 <= t < p ==> !dir_before(x@, #[trigger] run[t]));
                lemma_insert_dir_at(x@, run, p as int);
            }
            out.insert(p, x);
            proof {
                assert(views_of(out@) =~= run.take(p as int) + seq![input[i as int]] + run.skip(
                    p as int,
                ));
                assert(views_of(out@) == sort_dirs_upto(input, i + 1));
            }
            i = i + 1;
        }
        let r = DirTree { path, special, children: out };
        proof {
            lemma_dir_kids_view(r.children@, 0);
            assert forall|j: int| 0 <= j < out@.len() implies dir_kids_view(out@, 0)[j]
                == views_of(out@)[j] by {
                assert(dir_kids_view(out@, 0)[j] == dir_view(out@[j]));
            }
            assert(r@.kids =~= views_of(out@));
        }
        r
    }
}

impl Node for DirTree {
    open spec fn shape(&self) -> Shape {
        dir_shape(self@)
    }

    open spec fn valid(&self) -> bool {
        true
    }

    /// Returns the textual representation of the path associated with this
    /// node: the full path at the root, the base name otherwise, with the raw
    /// link target appended for a symbolic link.
    fn value(&self) -> (r: String) {
        match &self.special {
            SpecialFile::Ordinary => base_name_exec(self.path.as_str()),
            SpecialFile::Root => self.path.clone(),
            SpecialFile::Symlink(target) => {
                let mut s = base_name_exec(self.path.as_str());
                s.append(" -> ");
                s.append(target.as_str());
                proof {
                    assert(s@ =~= dir_label(self@));
                }
                s
            },
        }
    }

    /// Returns the path entries under this node, pre-sorted by path at
    /// construction time; no filesystem read happens here. An entry that is
    /// not a directory carries no children, and neither does a symbolic link
    /// below the root.
    fn children(&self) -> (r: Vec<&Self>) {
        proof {
            lemma_dir_kids_view(self.children@, 0);
            lemma_dir_shapes(self@.kids, 0);
        }
        let n = self.children.len();
        let mut out: Vec<&DirTree> = Vec::new();
        let mut i: usize = 0;
        while i < n
            invariant
                i <= n,
                n == self.children@.len(),
                self@.kids.len() == n,
                forall|j: int| 0 <= j < n ==> self@.kids[j] == dir_view(self.children@[j]),
                out@.len() == i,
                forall|j: int| 0 <= j < i ==> (#[trigger] out@[j])@ == self@.kids[j],
            decreases n - i,
        {
            out.push(&self.children[i]);
            i = i + 1;
        }
        out
    }
}

impl DirTree {
    /// Returns the number of entries below this node, and each of theirs,
    /// recursively.
    pub fn count_descendents(&self) -> (n: usize)
        requires
            descendant_count(dir_shape(self@)) <= usize::MAX,
        ensures
            n == descendant_count(dir_shape(self@)),
    {
        count_descendents_of(self)
    }

    /// Renders the snapshot rooted at this node.
    pub fn render(&self) -> (r: String)
        ensures
            r@ == render_shape(dir_shape(self@)),
    {
        render_node(self)
    }
}

/// Inserting at the first position whose entry's path is greater: exactly
/// what the in-place insertion does.
proof fn lemma_insert_dir_at(x: DirV, s: Seq<DirV>, p: int)
    requires
        0 <= p <= s.len(),
        forall|t: int| 0 <= t < p ==> !dir_before(x, #[trigger] s[t]),
        p < s.len() ==> dir_before(x, s[p]),
    ensures
        insert_dir(x, s) == s.take(p) + seq![x] + s.skip(p),
    decreases p,
{
    if p == 0 {
        assert(insert_dir(x, s) =~= s.take(0) + seq![x] + s.skip(0));
    } else {
        assert(forall|t: int| 0 <= t < p - 1 ==> (#[trigger] s.skip(1)[t]) == s[t + 1]);
        lemma_insert_dir_at(x, s.skip(1), p - 1);
        assert(seq![s[0]] + (s.skip(1).take(p - 1) + seq![x] + s.skip(1).skip(p - 1)) =~= s.take(p)
            + seq![x] + s.skip(p));
    }
}

} // verus!
