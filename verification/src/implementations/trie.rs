//! A character trie over word frequencies: each node represents a prefix (its
//! "fragment"), counts how often that exact prefix was inserted as a complete
//! word, and aggregates how often anything at or below it was inserted.

use vstd::prelude::*;

use crate::node::{
    count_descendents_of, descendant_count, render_node, render_shape, Node, Shape,
};

verus! {

/// The order in which a trie node returns its children for rendering.
#[derive(Debug, Clone, Copy, PartialEq, Eq, Structural)]
pub enum SortOption {
    /// Sort children by their value.
    Value,
    /// Sort children by their value, reversed.
    ValueReversed,
    /// Sort children by the number of times they directly occur, from least
    /// to greatest.
    DirectCountAscending,
    /// Sort children by the number of times they directly occur, from
    /// greatest to least.
    DirectCountDescending,
    /// Sort children by the number of times they or any descendent of theirs
    /// occurs, from least to greatest.
    TotalCountAscending,
    /// Sort children by the number of times they or any descendent of theirs
    /// occurs, from greatest to least.
    TotalCountDescending,
}

/// What additional data a trie node displays along with its word fragment.
#[derive(Debug, Clone, Copy, PartialEq, Eq, Structural)]
pub enum DisplayData {
    /// Display no additional data along with the word fragment.
    Bare,
    /// Display the number of times exactly this word has occurred.
    DirectCount,
    /// Display the number of times this word fragment or any descendent of it
    /// has occurred.
    TotalCount,
}

/// The mathematical view of a trie node: the fragment it represents, its
/// direct and subtree counts, its children in stored (key-ordered) order, and
/// its rendering options.
pub struct TrieV {
    pub fragment: Seq<char>,
    pub count: nat,
    pub total: nat,
    pub kids: Seq<TrieV>,
    pub sort: SortOption,
    pub display: DisplayData,
}

/// The key of a non-root trie node: the last character of its fragment, the
/// one it extends its parent's fragment by.
pub open spec fn key_of(v: TrieV) -> char {
    v.fragment.last()
}

/// The sum of the subtree counts of the children `kids[i..]`.
pub open spec fn sum_totals(kids: Seq<TrieV>, i: int) -> nat
    decreases kids.len() - i,
{
    if 0 <= i < kids.len() {
        kids[i].total + sum_totals(kids, i + 1)
    } else {
        0
    }
}

/// Well-formedness of a trie node: the subtree count is the direct count plus
/// the sum of the children's subtree counts; every child was inserted through
/// at least once, so no zero-count phantom node exists; each child's fragment
/// extends this node's fragment by exactly its key character; the children
/// are held in strictly increasing key order; and each child is well formed
/// in turn.
pub open spec fn wf_v(v: TrieV) -> bool
    decreases v,
{
    &&& v.total == v.count + sum_totals(v.kids, 0)
    &&& (forall|i: int| 0 <= i < v.kids.len() ==> (#[trigger] v.kids[i]).total >= 1)
    &&& (forall|i: int|
        0 <= i < v.kids.len() ==> (#[trigger] v.kids[i]).fragment == v.fragment.push(
            key_of(v.kids[i]),
        ))
    &&& (forall|i: int, j: int|
        #![trigger v.kids[i], v.kids[j]]
        0 <= i < j < v.kids.len() ==> (key_of(v.kids[i]) as u32) < (key_of(v.kids[j]) as u32))
    &&& (forall|i: int| 0 <= i < v.kids.len() ==> wf_v(#[trigger] v.kids[i]))
}

/// The set of fragments of all nodes in the subtrie `v`, its own included.
pub open spec fn fragments_of(v: TrieV) -> Set<Seq<char>>
    decreases v, 1int,
{
    fragments_of_kids(v.kids, 0).insert(v.fragment)
}

/// The fragments of all nodes in the subtries `kids[i..]`.
pub open spec fn fragments_of_kids(kids: Seq<TrieV>, i: int) -> Set<Seq<char>>
    decreases kids, kids.len() - i,
{
    if 0 <= i < kids.len() {
        fragments_of(kids[i]).union(fragments_of_kids(kids, i + 1))
    } else {
        Set::empty()
    }
}

/// The prefixes of `w` of length at least `from`: the fragments of the nodes
/// an insertion of `w` visits or creates below a node whose fragment is the
/// first `from` characters of `w`.
pub open spec fn word_prefixes(from: int, w: Seq<char>) -> Set<Seq<char>> {
    Set::new(|p: Seq<char>| from <= p.len() <= w.len() && p == w.take(p.len() as int))
}

/// All prefixes (the empty one included) of the first `i` words of `ws`: the
/// fragments a population of a fresh root with those words creates.
pub open spec fn prefixes_upto(ws: Seq<Seq<char>>, i: int) -> Set<Seq<char>>
    decreases i,
{
    if 0 < i <= ws.len() {
        prefixes_upto(ws, i - 1).union(word_prefixes(0, ws[i - 1]))
    } else {
        Set::empty()
    }
}

/// Whether every node of the trie carries the given rendering options: both
/// are set for the whole tree and propagated to every lazily created node,
/// never overridden per branch.
pub open spec fn opts_synced(v: TrieV, s: SortOption, d: DisplayData) -> bool
    decreases v,
{
    &&& v.sort == s
    &&& v.display == d
    &&& forall|i: int| 0 <= i < v.kids.len() ==> opts_synced(#[trigger] v.kids[i], s, d)
}

/// How many times the complete word `w` occurs in the subtrie `v`: the direct
/// count of the node whose fragment is exactly `w`, or zero when no such node
/// exists. `w` is the full word, fragment prefix included.
pub open spec fn count_of(v: TrieV, w: Seq<char>) -> nat
    decreases v, 1int,
{
    if w == v.fragment {
        v.count
    } else if w.len() > v.fragment.len() && w.take(v.fragment.len() as int) == v.fragment {
        count_in_kids(v.kids, w, w[v.fragment.len() as int], 0)
    } else {
        0
    }
}

/// How many times `w` occurs under whichever of the children `kids[i..]` has
/// the key `key`; zero when none has.
pub open spec fn count_in_kids(kids: Seq<TrieV>, w: Seq<char>, key: char, i: int) -> nat
    decreases kids, kids.len() - i,
{
    if 0 <= i < kids.len() {
        if key_of(kids[i]) == key {
            count_of(kids[i], w)
        } else {
            count_in_kids(kids, w, key, i + 1)
        }
    } else {
        0
    }
}

/// The fragment-and-count content of a trie, with the rendering options
/// erased: what insertion builds and rendering options may never change.
pub struct TrieData {
    pub fragment: Seq<char>,
    pub count: nat,
    pub total: nat,
    pub kids: Seq<TrieData>,
}

/// The content of a trie node, its rendering options erased.
pub open spec fn data_of(v: TrieV) -> TrieData
    decreases v, 1int,
{
    TrieData {
        fragment: v.fragment,
        count: v.count,
        total: v.total,
        kids: data_of_kids(v.kids, 0),
    }
}

/// The contents of the children `kids[i..]`, in order.
pub open spec fn data_of_kids(kids: Seq<TrieV>, i: int) -> Seq<TrieData>
    decreases kids, kids.len() - i,
{
    if 0 <= i < kids.len() {
        seq![data_of(kids[i])] + data_of_kids(kids, i + 1)
    } else {
        Seq::empty()
    }
}

/// The content of each child is the content at its position.
pub proof fn lemma_data_of_kids(kids: Seq<TrieV>, i: int)
    requires
        0 <= i <= kids.len(),
    ensures
        data_of_kids(kids, i).len() == kids.len() - i,
        forall|j: int| i <= j < kids.len() ==> data_of_kids(kids, i)[j - i] == data_of(kids[j]),
    decreases kids.len() - i,
{
    if i < kids.len() {
        lemma_data_of_kids(kids, i + 1);
    }
}

/// The node `v` with the sort option of every node set to `o`.
pub open spec fn with_sort(v: TrieV, o: SortOption) -> TrieV
    decreases v, 1int,
{
    TrieV {
        fragment: v.fragment,
        count: v.count,
        total: v.total,
        kids: with_sort_kids(v.kids, o, 0),
        sort: o,
        display: v.display,
    }
}

/// The children `kids[i..]`, each with the sort option of every node set.
pub open spec fn with_sort_kids(kids: Seq<TrieV>, o: SortOption, i: int) -> Seq<TrieV>
    decreases kids, kids.len() - i,
{
    if 0 <= i < kids.len() {
        seq![with_sort(kids[i], o)] + with_sort_kids(kids, o, i + 1)
    } else {
        Seq::empty()
    }
}

pub proof fn lemma_with_sort_kids(kids: Seq<TrieV>, o: SortOption, i: int)
    requires
        0 <= i <= kids.len(),
    ensures
        with_sort_kids(kids, o, i).len() == kids.len() - i,
        forall|j: int|
            i <= j < kids.len() ==> with_sort_kids(kids, o, i)[j - i] == with_sort(kids[j], o),
    decreases kids.len() - i,
{
    if i < kids.len() {
        lemma_with_sort_kids(kids, o, i + 1);
    }
}

/// The node `v` with the display mode of every node set to `d`.
pub open spec fn with_display(v: TrieV, d: DisplayData) -> TrieV
    decreases v, 1int,
{
    TrieV {
        fragment: v.fragment,
        count: v.count,
        total: v.total,
        kids: with_display_kids(v.kids, d, 0),
        sort: v.sort,
        display: d,
    }
}

/// The children `kids[i..]`, each with the display mode of every node set.
pub open spec fn with_display_kids(kids: Seq<TrieV>, d: DisplayData, i: int) -> Seq<TrieV>
    decreases kids, kids.len() - i,
{
    if 0 <= i < kids.len() {
        seq![with_display(kids[i], d)] + with_display_kids(kids, d, i + 1)
    } else {
        Seq::empty()
    }
}

pub proof fn lemma_with_display_kids(kids: Seq<TrieV>, d: DisplayData, i: int)
    requires
        0 <= i <= kids.len(),
    ensures
        with_display_kids(kids, d, i).len() == kids.len() - i,
        forall|j: int|
            i <= j < kids.len() ==> with_display_kids(kids, d, i)[j - i] == with_display(
                kids[j],
                d,
            ),
    decreases kids.len() - i,
{
    if i < kids.len() {
        lemma_with_display_kids(kids, d, i + 1);
    }
}

/// Setting the sort option everywhere never changes the content: the
/// fragments and counts stay exactly what they were.
pub proof fn lemma_with_sort_preserves_data(v: TrieV, o: SortOption)
    ensures
        data_of(with_sort(v, o)) == data_of(v),
    decreases v, 1int,
{
    let v2 = with_sort(v, o);
    lemma_with_sort_kids(v.kids, o, 0);
    lemma_data_of_kids(v.kids, 0);
    lemma_data_of_kids(v2.kids, 0);
    assert forall|j: int| 0 <= j < v.kids.len() implies data_of_kids(v2.kids, 0)[j]
        == data_of_kids(v.kids, 0)[j] by {
        lemma_with_sort_preserves_data_kids(v.kids, o, j);
    }
    assert(data_of_kids(v2.kids, 0) =~= data_of_kids(v.kids, 0));
}

proof fn lemma_with_sort_preserves_data_kids(kids: Seq<TrieV>, o: SortOption, j: int)
    requires
        0 <= j < kids.len(),
    ensures
        data_of(with_sort(kids[j], o)) == data_of(kids[j]),
    decreases kids, 2int,
{
    lemma_with_sort_preserves_data(kids[j], o);
}

/// Setting the sort option everywhere leaves a tree with synchronized options
/// synchronized: every node carries the new sort option and the old display
/// mode.
pub proof fn lemma_with_sort_synced(v: TrieV, o: SortOption, s: SortOption, d: DisplayData)
    requires
        opts_synced(v, s, d),
    ensures
        opts_synced(with_sort(v, o), o, d),
    decreases v, 1int,
{
    let v2 = with_sort(v, o);
    lemma_with_sort_kids(v.kids, o, 0);
    assert forall|j: int| 0 <= j < v2.kids.len() implies opts_synced(
        #[trigger] v2.kids[j],
        o,
        d,
    ) by {
        lemma_with_sort_synced_kid(v.kids, o, s, d, j);
    }
}

proof fn lemma_with_sort_synced_kid(
    kids: Seq<TrieV>,
    o: SortOption,
    s: SortOption,
    d: DisplayData,
    j: int,
)
    requires
        0 <= j < kids.len(),
        opts_synced(kids[j], s, d),
    ensures
        opts_synced(with_sort(kids[j], o), o, d),
    decreases kids, 2int,
{
    lemma_with_sort_synced(kids[j], o, s, d);
}

/// Setting the display mode everywhere leaves a tree with synchronized
/// options synchronized: every node carries the old sort option and the new
/// display mode.
pub proof fn lemma_with_display_synced(v: TrieV, nd: DisplayData, s: SortOption, d: DisplayData)
    requires
        opts_synced(v, s, d),
    ensures
        opts_synced(with_display(v, nd), s, nd),
    decreases v, 1int,
{
    let v2 = with_display(v, nd);
    lemma_with_display_kids(v.kids, nd, 0);
    assert forall|j: int| 0 <= j < v2.kids.len() implies opts_synced(
        #[trigger] v2.kids[j],
        s,
        nd,
    ) by {
        lemma_with_display_synced_kid(v.kids, nd, s, d, j);
    }
}

proof fn lemma_with_display_synced_kid(
    kids: Seq<TrieV>,
    nd: DisplayData,
    s: SortOption,
    d: DisplayData,
    j: int,
)
    requires
        0 <= j < kids.len(),
        opts_synced(kids[j], s, d),
    ensures
        opts_synced(with_display(kids[j], nd), s, nd),
    decreases kids, 2int,
{
    lemma_with_display_synced(kids[j], nd, s, d);
}

/// Setting the display mode everywhere never changes the content either.
pub proof fn lemma_with_display_preserves_data(v: TrieV, d: DisplayData)
    ensures
        data_of(with_display(v, d)) == data_of(v),
    decreases v, 1int,
{
    let v2 = with_display(v, d);
    lemma_with_display_kids(v.kids, d, 0);
    lemma_data_of_kids(v.kids, 0);
    lemma_data_of_kids(v2.kids, 0);
    assert forall|j: int| 0 <= j < v.kids.len() implies data_of_kids(v2.kids, 0)[j]
        == data_of_kids(v.kids, 0)[j] by {
        lemma_with_display_preserves_data_kids(v.kids, d, j);
    }
    assert(data_of_kids(v2.kids, 0) =~= data_of_kids(v.kids, 0));
}

proof fn lemma_with_display_preserves_data_kids(kids: Seq<TrieV>, d: DisplayData, j: int)
    requires
        0 <= j < kids.len(),
    ensures
        data_of(with_display(kids[j], d)) == data_of(kids[j]),
    decreases kids, 2int,
{
    lemma_with_display_preserves_data(kids[j], d);
}

/// A trie node: the word or partial word this node represents, the number of
/// times exactly that word occurred, the number of times this node or any
/// descendent occurred, the child nodes in strictly increasing key order, and
/// the rendering options.
pub struct Trie {
    fragment: String,
    count: usize,
    descendents_count: usize,
    children: Vec<Trie>,
    sort_option: SortOption,
    display_data: DisplayData,
}

/// The view of a trie node, formed recursively from its fields.
pub closed spec fn trie_view(t: Trie) -> TrieV
    decreases t, 1int,
{
    TrieV {
        fragment: t.fragment@,
        count: t.count as nat,
        total: t.descendents_count as nat,
        kids: trie_kids_view(t.children@, 0),
        sort: t.sort_option,
        display: t.display_data,
    }
}

/// The views of the trie nodes `s[i..]`, in order.
pub closed spec fn trie_kids_view(s: Seq<Trie>, i: int) -> Seq<TrieV>
    decreases s, s.len() - i,
{
    if 0 <= i < s.len() {
        seq![trie_view(s[i])] + trie_kids_view(s, i + 1)
    } else {
        Seq::empty()
    }
}

/// The view of each stored child is the view at its position.
pub proof fn lemma_trie_kids_view(s: Seq<Trie>, i: int)
    requires
        0 <= i <= s.len(),
    ensures
        trie_kids_view(s, i).len() == s.len() - i,
        forall|j: int| i <= j < s.len() ==> trie_kids_view(s, i)[j - i] == trie_view(s[j]),
    decreases s.len() - i,
{
    if i < s.len() {
        lemma_trie_kids_view(s, i + 1);
    }
}

impl View for Trie {
    type V = TrieV;

    closed spec fn view(&self) -> TrieV {
        trie_view(*self)
    }
}

impl Trie {
    /// Well-formedness of this node; every constructor establishes it and
    /// every method preserves it.
    pub open spec fn well_formed(&self) -> bool {
        wf_v(self@)
    }

    /// Returns an empty [`Trie`] which will sort entries by value and display
    /// the number of times the node has occurred as part of the value.
    pub fn new() -> (r: Self)
        ensures
            r.well_formed(),
            opts_synced(r@, SortOption::Value, DisplayData::DirectCount),
            r@ == (TrieV {
                fragment: Seq::<char>::empty(),
                count: 0,
                total: 0,
                kids: Seq::<TrieV>::empty(),
                sort: SortOption::Value,
                display: DisplayData::DirectCount,
            }),
    {
        Self::with_sort_and_display(SortOption::Value, DisplayData::DirectCount)
    }

    /// Returns an empty [`Trie`] which will sort entries by the given
    /// [`SortOption`] and display values according to the given
    /// [`DisplayData`].
    pub fn with_sort_and_display(sort_option: SortOption, display_data: DisplayData) -> (r: Self)
        ensures
            r.well_formed(),
            opts_synced(r@, sort_option, display_data),
            r@ == (TrieV {
                fragment: Seq::<char>::empty(),
                count: 0,
                total: 0,
                kids: Seq::<TrieV>::empty(),
                sort: sort_option,
                display: display_data,
            }),
    {
        let r = Self::new_with_fragment(String::new(), sort_option, display_data);
        r
    }

    /// Returns a new [`Trie`] node with the given word fragment and a count
    /// of zero, and with the given [`SortOption`] and [`DisplayData`].
    fn new_with_fragment(
        fragment: String,
        sort_option: SortOption,
        display_data: DisplayData,
    ) -> (r: Self)
        ensures
            r.well_formed(),
            opts_synced(r@, sort_option, display_data),
            r@ == (TrieV {
                fragment: fragment@,
                count: 0,
                total: 0,
                kids: Seq::<TrieV>::empty(),
                sort: sort_option,
                display: display_data,
            }),
    {
        let r = Trie {
            fragment,
            count: 0,
            descendents_count: 0,
            children: Vec::new(),
            sort_option,
            display_data,
        };
        proof {
            assert(r@.kids =~= Seq::<TrieV>::empty());
        }
        r
    }

    /// Returns a new [`Trie`] populated with the given words, with children
    /// sorted lexicographically and word counts displayed in the value.
    pub fn from(words: &[&str]) -> (r: Self)
        ensures
            r.well_formed(),
            r@.fragment == Seq::<char>::empty(),
            r@.sort == SortOption::Value,
            r@.display == DisplayData::DirectCount,
            opts_synced(r@, SortOption::Value, DisplayData::DirectCount),
            r@.total == words@.len(),
            fragments_of(r@) == Set::<Seq<char>>::empty().insert(Seq::empty()).union(
                prefixes_upto(words@.map_values(|s: &str| s@), words@.len() as int),
            ),
            forall|w: Seq<char>|
                #[trigger] count_of(r@, w) == occurrences_in(
                    words@.map_values(|s: &str| s@),
                    w,
                ),
    {
        let n = words.len();
        proof {
            assert(words@.len() == n);
        }
        let start = Self::new();
        proof {
            broadcast use vstd::set::group_set_axioms;

            assert(fragments_of(start@) =~= Set::<Seq<char>>::empty().insert(Seq::empty()));
        }
        start.populate(words)
    }

    /// Returns a new [`Trie`] populated with the given words, with children
    /// ordered according to the given [`SortOption`] and supplementary data
    /// displayed according to the given [`DisplayData`].
    pub fn from_with_sort_and_display(
        words: &[&str],
        sort_option: SortOption,
        display_data: DisplayData,
    ) -> (r: Self)
        ensures
            r.well_formed(),
            r@.fragment == Seq::<char>::empty(),
            r@.sort == sort_option,
            r@.display == display_data,
            opts_synced(r@, sort_option, display_data),
            r@.total == words@.len(),
            fragments_of(r@) == Set::<Seq<char>>::empty().insert(Seq::empty()).union(
                prefixes_upto(words@.map_values(|s: &str| s@), words@.len() as int),
            ),
            forall|w: Seq<char>|
                #[trigger] count_of(r@, w) == occurrences_in(
                    words@.map_values(|s: &str| s@),
                    w,
                ),
    {
        let n = words.len();
        proof {
            assert(words@.len() == n);
        }
        let start = Self::with_sort_and_display(sort_option, display_data);
        proof {
            broadcast use vstd::set::group_set_axioms;

            assert(fragments_of(start@) =~= Set::<Seq<char>>::empty().insert(Seq::empty()));
        }
        start.populate(words)
    }

    /// Populates this root [`Trie`] with the given words, then returns it.
    fn populate(self, words: &[&str]) -> (r: Self)
        requires
            self.well_formed(),
            opts_synced(self@, self@.sort, self@.display),
            self@.fragment.len() == 0,
            self@.total + words@.len() <= usize::MAX,
        ensures
            r.well_formed(),
            r@.fragment == self@.fragment,
            r@.sort == self@.sort,
            r@.display == self@.display,
            opts_synced(r@, self@.sort, self@.display),
            r@.total == self@.total + words@.len(),
            fragments_of(r@) == fragments_of(self@).union(
                prefixes_upto(words@.map_values(|s: &str| s@), words@.len() as int),
            ),
            forall|w: Seq<char>|
                #[trigger] count_of(r@, w) == count_of(self@, w) + occurrences_in(
                    words@.map_values(|s: &str| s@),
                    w,
                ),
    {
        let ghost ws = words@.map_values(|s: &str| s@);
        let n = words.len();
        let mut t = self;
        let mut i: usize = 0;
        proof {
            broadcast use vstd::set::group_set_axioms;

            assert(ws.take(0) =~= Seq::<Seq<char>>::empty());
            assert(forall|w: Seq<char>| occurrences_in(ws.take(0), w) == 0);
            assert(fragments_of(t@) =~= fragments_of(self@).union(prefixes_upto(ws, 0)));
        }
        while i < n
            invariant
                i <= n,
                n == words@.len(),
                ws == words@.map_values(|s: &str| s@),
                t.well_formed(),
                t@.fragment == self@.fragment,
                t@.fragment.len() == 0,
                t@.sort == self@.sort,
                t@.display == self@.display,
                opts_synced(t@, self@.sort, self@.display),
                t@.total == self@.total + i,
                self@.total + n <= usize::MAX,
                fragments_of(t@) == fragments_of(self@).union(prefixes_upto(ws, i as int)),
                forall|w: Seq<char>|
                    #[trigger] count_of(t@, w) == count_of(self@, w) + occurrences_in(
                        ws.take(i as int),
                        w,
                    ),
            decreases n - i,
        {
            let ghost t_pre = t@;
            let word = String::from_str(words[i]);
            proof {
                assert(word@ == ws[i as int]);
                assert(word@.take(0) =~= t@.fragment);
                assert(crate::text::is_prefix(t@.fragment, word@));
            }
            let res = t.add(word);
            match res {
                Result::Ok(_) => {},
                Result::Err(_) => {
                    proof {
                        assert(false);
                    }
                },
            }
            proof {
                broadcast use vstd::set::group_set_axioms;

                assert(fragments_of(t@) == fragments_of(t_pre).union(word_prefixes(0, ws[i as int])));
                assert(fragments_of(t@) =~= fragments_of(self@).union(prefixes_upto(ws, i + 1)));
                assert(ws.take(i + 1).drop_last() =~= ws.take(i as int));
                assert(ws.take(i + 1).last() == ws[i as int]);
                assert forall|w: Seq<char>| #[trigger] count_of(t@, w) == count_of(self@, w)
                    + occurrences_in(ws.take(i + 1), w) by {
                    if w == ws[i as int] {
                        assert(count_of(t@, w) == count_of(t_pre, w) + 1);
                    } else {
                        assert(count_of(t@, w) == count_of(t_pre, w));
                    }
                }
            }
            i = i + 1;
        }
        proof {
            assert(ws.take(n as int) =~= ws);
        }
        t
    }

    /// Returns the total number of times this node or any descendent of it
    /// has been added to the [`Trie`].
    pub fn total_occurrences(&self) -> (r: usize)
        ensures
            r == self@.total,
    {
        self.descendents_count
    }

    /// Returns the key character of this non-root node: the last character of
    /// its fragment.
    fn key_char(&self) -> (r: char)
        requires
            self@.fragment.len() >= 1,
        ensures
            r == key_of(self@),
    {
        let n = self.fragment.as_str().unicode_len();
        self.fragment.as_str().get_char(n - 1)
    }

    /// Returns the first child position whose key is at least `key`; all
    /// children before it have strictly smaller keys.
    fn child_search(&self, key: char) -> (r: usize)
        requires
            self.well_formed(),
        ensures
            r <= self@.kids.len(),
            forall|i: int|
                0 <= i < r ==> (key_of(#[trigger] self@.kids[i]) as u32) < (key as u32),
            r < self@.kids.len() ==> (key_of(self@.kids[r as int]) as u32) >= (key as u32),
    {
        proof {
            lemma_trie_kids_view(self.children@, 0);
        }
        let n = self.children.len();
        let mut i: usize = 0;
        while i < n
            invariant
                i <= n,
                n == self@.kids.len(),
                self.well_formed(),
                trie_kids_view(self.children@, 0) == self@.kids,
                self.children@.len() == n,
                forall|j: int| 0 <= j < n ==> self@.kids[j] == trie_view(self.children@[j]),
                forall|j: int|
                    0 <= j < i ==> (key_of(#[trigger] self@.kids[j]) as u32) < (key as u32),
            decreases n - i,
        {
            let c = self.children[i].key_char();
            proof {
                assert(self@.kids[i as int].fragment == self@.fragment.push(
                    key_of(self@.kids[i as int]),
                ));
            }
            if (c as u32) >= (key as u32) {
                return i;
            }
            i = i + 1;
        }
        n
    }

    /// Returns the number of times the given word has been added at or below
    /// this node: `word` extends this node's fragment, and the count returned
    /// is the direct count of the node whose fragment is this node's fragment
    /// followed by `word`, or zero when no such node exists — in particular
    /// for a fragment that was only ever seen as a proper prefix of inserted
    /// words.
    pub fn occurrences(&self, word: &str) -> (r: usize)
        requires
            self.well_formed(),
        ensures
            r == count_of(self@, self@.fragment + word@),
        decreases word@.len(),
    {
        let wlen = word.unicode_len();
        if wlen == 0 {
            proof {
                assert(self@.fragment + word@ =~= self@.fragment);
            }
            return self.count;
        }
        let ghost u = self@.fragment + word@;
        let ghost flen = self@.fragment.len() as int;
        proof {
            assert(u.len() > self@.fragment.len());
            assert(u.take(flen) =~= self@.fragment);
            assert(u[flen] == word@[0]);
        }
        let key = word.get_char(0);
        let j = self.child_search(key);
        let n = self.children.len();
        proof {
            lemma_trie_kids_view(self.children@, 0);
        }
        if j < n {
            let c = self.children[j].key_char();
            proof {
                assert(trie_view(self.children@[j as int]) == self@.kids[j as int]);
            }
            if c == key {
                proof {
                    assert(forall|i: int|
                        0 <= i < j ==> key_of(#[trigger] self@.kids[i]) != key);
                    lemma_count_in_kids_skip(self@.kids, u, key, 0, j as int);
                    assert(count_of(self@, u) == count_of(self@.kids[j as int], u));
                }
                let rest = word.substring_char(1, wlen);
                let ghost child = self@.kids[j as int];
                proof {
                    assert(child.fragment == self@.fragment.push(key_of(child)));
                    assert(child.fragment + rest@ =~= u);
                }
                let r = self.children[j].occurrences(rest);
                return r;
            }
        }
        proof {
            assert(forall|i: int| 0 <= i < n ==> key_of(#[trigger] self@.kids[i]) != key) by {
                assert(forall|i: int|
                    j < i < n ==> (key_of(self@.kids[j as int]) as u32) < (key_of(
                        #[trigger] self@.kids[i],
                    ) as u32));
            }
            lemma_count_in_kids_skip(self@.kids, u, key, 0, n as int);
        }
        0
    }

    /// Set the sort option for this [`Trie`] node and all of its descendents
    /// to the given [`SortOption`]. The fragments and counts are untouched:
    /// only the order in which children are rendered changes.
    pub fn set_sort_option(&mut self, sort_option: SortOption)
        ensures
            final(self)@ == with_sort(old(self)@, sort_option),
            old(self).well_formed() ==> final(self).well_formed(),
            forall|d: DisplayData|
                opts_synced(old(self)@, old(self)@.sort, d) ==> opts_synced(
                    final(self)@,
                    sort_option,
                    d,
                ),
        decreases *old(self),
    {
        self.sort_option = sort_option;
        let n = self.children.len();
        let mut k: usize = 0;
        while k < n
            invariant
                k <= n,
                self.children@.len() == n,
                old(self).children@.len() == n,
                self.fragment == old(self).fragment,
                self.count == old(self).count,
                self.descendents_count == old(self).descendents_count,
                self.sort_option == sort_option,
                self.display_data == old(self).display_data,
                forall|i: int|
                    k <= i < n ==> #[trigger] self.children@[i] == old(self).children@[i],
                forall|i: int|
                    0 <= i < k ==> trie_view(#[trigger] self.children@[i]) == with_sort(
                        trie_view(old(self).children@[i]),
                        sort_option,
                    ),
            decreases n - k,
        {
            proof {
                assert(decreases_to!(*old(self) => old(self).children));
                assert(decreases_to!(old(self).children => old(self).children@));
                assert(decreases_to!(old(self).children@ => old(self).children@[k as int]));
            }
            self.children[k].set_sort_option(sort_option);
            k = k + 1;
        }
        proof {
            lemma_trie_kids_view(self.children@, 0);
            lemma_trie_kids_view(old(self).children@, 0);
            lemma_with_sort_kids(old(self)@.kids, sort_option, 0);
            assert forall|i: int| 0 <= i < n implies with_sort(old(self)@, sort_option).kids[i]
                == self@.kids[i] by {
                assert(self@.kids[i] == trie_view(self.children@[i]));
                assert(old(self)@.kids[i] == trie_view(old(self).children@[i]));
            }
            assert(self@.kids =~= with_sort(old(self)@, sort_option).kids);
            if old(self).well_formed() {
                lemma_with_sort_preserves_data(old(self)@, sort_option);
                lemma_data_determines_wf(old(self)@, self@);
            }
            assert forall|d: DisplayData|
                opts_synced(old(self)@, old(self)@.sort, d) implies opts_synced(
                self@,
                sort_option,
                d,
            ) by {
                lemma_with_sort_synced(old(self)@, sort_option, old(self)@.sort, d);
            }
        }
    }

    /// Set the display data for this [`Trie`] node and all of its descendents
    /// to the given [`DisplayData`]. The fragments and counts are untouched:
    /// only the text each node renders as changes.
    pub fn set_display_data(&mut self, display_data: DisplayData)
        ensures
            final(self)@ == with_display(old(self)@, display_data),
            old(self).well_formed() ==> final(self).well_formed(),
            forall|s: SortOption|
                opts_synced(old(self)@, s, old(self)@.display) ==> opts_synced(
                    final(self)@,
                    s,
                    display_data,
                ),
        decreases *old(self),
    {
        self.display_data = display_data;
        let n = self.children.len();
        let mut k: usize = 0;
        while k < n
            invariant
                k <= n,
                self.children@.len() == n,
                old(self).children@.len() == n,
                self.fragment == old(self).fragment,
                self.count == old(self).count,
                self.descendents_count == old(self).descendents_count,
                self.sort_option == old(self).sort_option,
                self.display_data == display_data,
                forall|i: int|
                    k <= i < n ==> #[trigger] self.children@[i] == old(self).children@[i],
                forall|i: int|
                    0 <= i < k ==> trie_view(#[trigger] self.children@[i]) == with_display(
                        trie_view(old(self).children@[i]),
                        display_data,
                    ),
            decreases n - k,
        {
            proof {
                assert(decreases_to!(*old(self) => old(self).children));
                assert(decreases_to!(old(self).children => old(self).children@));
                assert(decreases_to!(old(self).children@ => old(self).children@[k as int]));
            }
            self.children[k].set_display_data(display_data);
            k = k + 1;
        }
        proof {
            lemma_trie_kids_view(self.children@, 0);
            lemma_trie_kids_view(old(self).children@, 0);
            lemma_with_display_kids(old(self)@.kids, display_data, 0);
            assert forall|i: int| 0 <= i < n implies with_display(old(self)@, display_data).kids[i]
                == self@.kids[i] by {
                assert(self@.kids[i] == trie_view(self.children@[i]));
                assert(old(self)@.kids[i] == trie_view(old(self).children@[i]));
            }
            assert(self@.kids =~= with_display(old(self)@, display_data).kids);
            if old(self).well_formed() {
                lemma_with_display_preserves_data(old(self)@, display_data);
                lemma_data_determines_wf(old(self)@, self@);
            }
            assert forall|s: SortOption|
                opts_synced(old(self)@, s, old(self)@.display) implies opts_synced(
                self@,
                s,
                display_data,
            ) by {
                lemma_with_display_synced(old(self)@, display_data, s, old(self)@.display);
            }
        }
    }

    /// Adds the given word to the [`Trie`] and returns the total number of
    /// times it now occurs.
    ///
    /// If the given word is already in the trie, its occurrence count is
    /// incremented by one. Otherwise, nodes are added to the trie for the
    /// word and any of its prefixes not yet present, and the occurrence count
    /// of the node for the word itself becomes one. Every node visited on the
    /// way down, the terminal one included, has its subtree count
    /// incremented. Fails exactly when `word` does not begin with this node's
    /// fragment, leaving the trie unchanged; adding at the root, whose
    /// fragment is empty, never fails.
    #[verifier::rlimit(100)]
    pub fn add(&mut self, word: String) -> (r: Result<usize, &'static str>)
        requires
            old(self).well_formed(),
            old(self)@.total < usize::MAX,
        ensures
            opts_synced(old(self)@, old(self)@.sort, old(self)@.display) ==> opts_synced(
                final(self)@,
                old(self)@.sort,
                old(self)@.display,
            ),
            match r {
                Result::Ok(n) => {
                    &&& crate::text::is_prefix(old(self)@.fragment, word@)
                    &&& final(self).well_formed()
                    &&& final(self)@.fragment == old(self)@.fragment
                    &&& final(self)@.sort == old(self)@.sort
                    &&& final(self)@.display == old(self)@.display
                    &&& final(self)@.total == old(self)@.total + 1
                    &&& fragments_of(final(self)@) == fragments_of(old(self)@).union(
                        word_prefixes(old(self)@.fragment.len() as int, word@),
                    )
                    &&& count_of(final(self)@, word@) == count_of(old(self)@, word@) + 1
                    &&& n == count_of(final(self)@, word@)
                    &&& forall|u: Seq<char>|
                        u != word@ ==> count_of(final(self)@, u) == count_of(old(self)@, u)
                },
                Result::Err(m) => {
                    &&& !crate::text::is_prefix(old(self)@.fragment, word@)
                    &&& *final(self) == *old(self)
                    &&& m@ == "cannot add word to node with incompatible prefix"@
                },
            },
        decreases word@.len() - old(self)@.fragment.len(),
    {
        let ghost v0 = old(self)@;
        let ghost w = word@;
        if !crate::text::str_has_prefix(word.as_str(), self.fragment.as_str()) {
            return Result::Err("cannot add word to node with incompatible prefix");
        }
        let flen = self.fragment.as_str().unicode_len();
        let wlen = word.as_str().unicode_len();
        proof {
            lemma_trie_kids_view(self.children@, 0);
        }
        if wlen == flen {
            proof {
                assert(w =~= v0.fragment);
            }
            self.descendents_count = self.descendents_count + 1;
            self.count = self.count + 1;
            let n = self.count;
            proof {
                let v1 = self@;
                assert(v1.kids == v0.kids);
                assert(wf_v(v1));
                assert(count_of(v1, w) == v1.count);
                assert(count_of(v0, w) == v0.count);
                assert forall|u: Seq<char>| u != w implies count_of(v1, u) == count_of(v0, u) by {
                    if u.len() > v0.fragment.len() && u.take(v0.fragment.len() as int)
                        == v0.fragment {
                        assert(count_of(v1, u) == count_in_kids(
                            v1.kids,
                            u,
                            u[v0.fragment.len() as int],
                            0,
                        ));
                    } else {
                        assert(count_of(v1, u) == 0);
                        assert(count_of(v0, u) == 0);
                    }
                }
                // The node set is unchanged: the word already was a fragment here.
                broadcast use vstd::set::group_set_axioms;

                let wp = word_prefixes(v0.fragment.len() as int, w);
                assert(fragments_of(v1) == fragments_of(v0));
                assert(fragments_of(v0).contains(v0.fragment));
                assert forall|x: Seq<char>| fragments_of(v0).union(wp).contains(x) implies
                    fragments_of(v0).contains(x) by {
                    if wp.contains(x) {
                        assert(w.take(x.len() as int) =~= w);
                        assert(x == v0.fragment);
                    }
                }
                assert(fragments_of(v1) =~= fragments_of(v0).union(wp));
            }
            return Result::Ok(n);
        }
        proof {
            assert(flen < wlen);
            assert(w.take(flen as int) == v0.fragment);
        }
        let key = word.as_str().get_char(flen);
        let ghost ku = w[flen as int];
        let j = self.child_search(key);
        let n = self.children.len();
        proof {
            assert(forall|k: int|
                0 <= k < n ==> (#[trigger] v0.kids[k]).fragment == v0.fragment.push(
                    key_of(v0.kids[k]),
                ));
        }
        if j < n && self.children[j].key_char() == key {
            let ghost c0 = v0.kids[j as int];
            proof {
                assert(key_of(c0) == ku);
                lemma_sum_totals_elem_bound(v0.kids, 0, j as int);
                assert(c0.total <= v0.total);
                assert(c0.fragment.len() == flen + 1);
                assert(w.take(flen + 1 as int) =~= c0.fragment);
            }
            self.descendents_count = self.descendents_count + 1;
            let res = self.children[j].add(word);
            match res {
                Result::Ok(cnt) => {
                    proof {
                        let c1 = trie_view(self.children@[j as int]);
                        lemma_trie_kids_view(self.children@, 0);
                        let v1 = self@;
                        assert(self.children@.len() == n);
                        assert(v1.kids.len() == v0.kids.len());
                        assert forall|k: int|
                            0 <= k < n && k != j implies #[trigger] v1.kids[k] == v0.kids[k] by {
                            assert(self.children@[k] == old(self).children@[k]);
                            assert(v1.kids[k] == trie_view(self.children@[k]));
                            assert(v0.kids[k] == trie_view(old(self).children@[k]));
                        }
                        assert(v1.kids[j as int] == c1);
                        assert(key_of(c1) == ku);
                        // Well-formedness of the updated node.
                        lemma_sum_totals_update(v0.kids, v1.kids, j as int, 0);
                        assert(wf_v(v1)) by {
                            assert(forall|k: int|
                                0 <= k < n ==> key_of(#[trigger] v1.kids[k]) == key_of(
                                    v0.kids[k],
                                ));
                            assert(forall|k: int|
                                0 <= k < n ==> (#[trigger] v1.kids[k]).fragment
                                    == v1.fragment.push(key_of(v1.kids[k])));
                            assert(forall|k: int| 0 <= k < n ==> wf_v(#[trigger] v1.kids[k]));
                        }
                        // The word's count went up by one; everything else kept its count.
                        // Options stay synchronized: the child kept them.
                        if opts_synced(v0, v0.sort, v0.display) {
                            assert(opts_synced(c0, v0.sort, v0.display));
                            assert(opts_synced(c1, v0.sort, v0.display));
                            assert forall|k: int| 0 <= k < n implies opts_synced(
                                #[trigger] v1.kids[k],
                                v0.sort,
                                v0.display,
                            ) by {
                                if k != j {
                                    assert(v1.kids[k] == v0.kids[k]);
                                }
                            }
                            assert(opts_synced(v1, v0.sort, v0.display));
                        }
                        assert(forall|k: int|
                            0 <= k < j ==> key_of(#[trigger] v0.kids[k]) != ku);
                        lemma_count_in_kids_unique(v0.kids, w, ku, j as int);
                        lemma_count_in_kids_unique(v1.kids, w, ku, j as int);
                        assert(count_of(v0, w) == count_of(c0, w));
                        assert(count_of(v1, w) == count_of(c1, w));
                        // The node set grew by exactly the word's prefixes.
                        assert(fragments_of(c1) == fragments_of(c0).union(
                            word_prefixes(v0.fragment.len() as int + 1, w),
                        ));
                        lemma_fragments_after_update(v0, v1, w, j as int);
                        assert forall|u: Seq<char>| u != w implies count_of(v1, u) == count_of(
                            v0,
                            u,
                        ) by {
                            if u.len() > flen && u.take(flen as int) == v0.fragment {
                                let ku2 = u[flen as int];
                                if ku2 == ku {
                                    lemma_count_in_kids_unique(v0.kids, u, ku2, j as int);
                                    lemma_count_in_kids_unique(v1.kids, u, ku2, j as int);
                                } else if exists|m: int|
                                    0 <= m < n && key_of(#[trigger] v0.kids[m]) == ku2 {
                                    let m = choose|m: int|
                                        0 <= m < n && key_of(#[trigger] v0.kids[m]) == ku2;
                                    assert(m != j);
                                    assert(forall|k: int|
                                        0 <= k < m ==> key_of(#[trigger] v0.kids[k]) != ku2);
                                    lemma_count_in_kids_unique(v0.kids, u, ku2, m);
                                    lemma_count_in_kids_unique(v1.kids, u, ku2, m);
                                } else {
                                    lemma_count_in_kids_skip(v0.kids, u, ku2, 0, n as int);
                                    lemma_count_in_kids_skip(v1.kids, u, ku2, 0, n as int);
                                }
                            }
                        }
                    }
                    Result::Ok(cnt)
                },
                Result::Err(e) => {
                    proof {
                        assert(false);
                    }
                    Result::Err(e)
                },
            }
        } else {
            proof {
                assert(forall|k: int| 0 <= k < n ==> key_of(#[trigger] v0.kids[k]) != ku) by {
                    assert(forall|k: int|
                        j < k < n ==> (key_of(v0.kids[j as int]) as u32) < (key_of(
                            #[trigger] v0.kids[k],
                        ) as u32));
                }
                lemma_count_in_kids_skip(v0.kids, w, ku, 0, n as int);
                assert(count_of(v0, w) == 0);
            }
            let frag_child = word.as_str().substring_char(0, flen + 1).to_owned();
            let mut child = Trie::new_with_fragment(frag_child, self.sort_option, self.display_data);
            let ghost cf = child@;
            proof {
                assert(cf.fragment =~= v0.fragment.push(ku));
                assert(cf.fragment.len() == flen + 1);
            }
            let res = child.add(word);
            match res {
                Result::Ok(cnt) => {
                    let ghost c1 = child@;
                    let ghost kids_before = self.children@;
                    let ghost child_snap = child;
                    self.descendents_count = self.descendents_count + 1;
                    self.children.insert(j, child);
                    proof {
                        assert(key_of(c1) == ku);
                        assert(count_of(c1, w) == count_of(cf, w) + 1);
                        lemma_count_of_leaf_zero(cf, w);
                        kids_before.insert_ensures(j as int, child_snap);
                        assert(self.children@ == kids_before.insert(j as int, child_snap));
                        lemma_trie_kids_view(self.children@, 0);
                        lemma_trie_kids_view(kids_before, 0);
                        let v1 = self@;
                        assert(v1.kids.len() == n + 1);
                        assert forall|k: int| 0 <= k < j implies #[trigger] v1.kids[k]
                            == v0.kids[k] by {
                            assert(self.children@[k] == kids_before[k]);
                            assert(v1.kids[k] == trie_view(self.children@[k]));
                            assert(v0.kids[k] == trie_view(kids_before[k]));
                        }
                        assert(v1.kids[j as int] == trie_view(self.children@[j as int]));
                        assert(v1.kids[j as int] == c1);
                        assert forall|k: int| j < k < n + 1 implies #[trigger] v1.kids[k]
                            == v0.kids[k - 1] by {
                            assert(kids_before.insert(j as int, child_snap)[(k - 1) + 1]
                                == kids_before[k - 1]);
                            assert(v1.kids[k] == trie_view(self.children@[k]));
                            assert(v0.kids[k - 1] == trie_view(kids_before[k - 1]));
                        }
                        // Well-formedness of the grown node.
                        assert forall|k: int| j <= k < n implies #[trigger] v1.kids[k + 1]
                            == v0.kids[k] by {
                            assert(v1.kids[k + 1] == v0.kids[(k + 1) - 1]);
                        }
                        lemma_sum_totals_insert(v0.kids, v1.kids, j as int, 0);
                        // Every key right of the insertion point is larger than the new key.
                        assert forall|k: int| j <= k < n implies (key as u32) < (key_of(
                            #[trigger] v0.kids[k],
                        ) as u32) by {
                            assert(key_of(v0.kids[j as int]) != key);
                            assert((key_of(v0.kids[j as int]) as u32) >= (key as u32));
                            if k > j {
                                assert((key_of(v0.kids[j as int]) as u32) < (key_of(
                                    v0.kids[k],
                                ) as u32));
                            }
                        }
                        assert(wf_v(v1)) by {
                            assert forall|k: int| 0 <= k < n + 1 implies (#[trigger] v1.kids[k]).fragment
                                == v1.fragment.push(key_of(v1.kids[k])) && wf_v(v1.kids[k]) by {
                                if k < j {
                                    assert(v1.kids[k] == v0.kids[k]);
                                } else if k == j {
                                    assert(v1.kids[k] == c1);
                                } else {
                                    assert(v1.kids[k] == v0.kids[k - 1]);
                                }
                            }
                            assert forall|k1: int, k2: int|
                                #![trigger v1.kids[k1], v1.kids[k2]]
                                0 <= k1 < k2 < n + 1 implies (key_of(v1.kids[k1]) as u32) < (key_of(
                                v1.kids[k2],
                            ) as u32) by {
                                if k1 < j {
                                    assert(v1.kids[k1] == v0.kids[k1]);
                                } else if k1 == j {
                                    assert(v1.kids[k1] == c1);
                                } else {
                                    assert(v1.kids[k1] == v0.kids[k1 - 1]);
                                }
                                if k2 < j {
                                    assert(v1.kids[k2] == v0.kids[k2]);
                                } else if k2 == j {
                                    assert(v1.kids[k2] == c1);
                                } else {
                                    assert(v1.kids[k2] == v0.kids[k2 - 1]);
                                }
                            }
                        }
                        // Options stay synchronized: the new child was created
                        // with this node's own options.
                        if opts_synced(v0, v0.sort, v0.display) {
                            assert(opts_synced(cf, v0.sort, v0.display));
                            assert(opts_synced(c1, v0.sort, v0.display));
                            assert forall|k: int| 0 <= k < n + 1 implies opts_synced(
                                #[trigger] v1.kids[k],
                                v0.sort,
                                v0.display,
                            ) by {
                                if k < j {
                                    assert(v1.kids[k] == v0.kids[k]);
                                } else if k == j {
                                    assert(v1.kids[k] == c1);
                                } else {
                                    assert(v1.kids[k] == v0.kids[k - 1]);
                                }
                            }
                            assert(opts_synced(v1, v0.sort, v0.display));
                        }
                        // The node set grew by exactly the word's prefixes: the
                        // fresh child's fragments are just those prefixes.
                        broadcast use vstd::set::group_set_axioms;

                        assert(fragments_of_kids(cf.kids, 0) == Set::<Seq<char>>::empty());
                        assert(fragments_of(cf) =~= Set::<Seq<char>>::empty().insert(cf.fragment));
                        assert(word_prefixes(v0.fragment.len() as int + 1, w).contains(
                            cf.fragment,
                        ));
                        assert(fragments_of(c1) =~= word_prefixes(
                            v0.fragment.len() as int + 1,
                            w,
                        ));
                        lemma_fragments_after_insert(v0, v1, w, j as int);
                        // The new word's count is one; everything else kept its count.
                        assert(forall|k: int|
                            0 <= k < j ==> key_of(#[trigger] v1.kids[k]) != ku);
                        lemma_count_in_kids_unique(v1.kids, w, ku, j as int);
                        assert(count_of(v1, w) == count_of(c1, w));
                        assert forall|u: Seq<char>| u != w implies count_of(v1, u) == count_of(
                            v0,
                            u,
                        ) by {
                            if u.len() > flen && u.take(flen as int) == v0.fragment {
                                let ku2 = u[flen as int];
                                if ku2 == ku {
                                    lemma_count_in_kids_unique(v1.kids, u, ku2, j as int);
                                    lemma_count_in_kids_skip(v0.kids, u, ku2, 0, n as int);
                                    assert(count_of(c1, u) == count_of(cf, u));
                                    lemma_count_of_leaf_zero(cf, u);
                                } else if exists|m: int|
                                    0 <= m < n && key_of(#[trigger] v0.kids[m]) == ku2 {
                                    let m = choose|m: int|
                                        0 <= m < n && key_of(#[trigger] v0.kids[m]) == ku2;
                                    assert(forall|k: int|
                                        0 <= k < m ==> key_of(#[trigger] v0.kids[k]) != ku2);
                                    lemma_count_in_kids_unique(v0.kids, u, ku2, m);
                                    if m < j {
                                        assert(forall|k: int|
                                            0 <= k < m ==> key_of(#[trigger] v1.kids[k]) != ku2);
                                        lemma_count_in_kids_unique(v1.kids, u, ku2, m);
                                    } else {
                                        assert(v1.kids[m + 1] == v0.kids[m]);
                                        assert(forall|k: int|
                                            0 <= k < m + 1 ==> key_of(#[trigger] v1.kids[k])
                                                != ku2);
                                        lemma_count_in_kids_unique(v1.kids, u, ku2, m + 1);
                                    }
                                } else {
                                    lemma_count_in_kids_skip(v0.kids, u, ku2, 0, n as int);
                                    lemma_count_in_kids_skip(v1.kids, u, ku2, 0, (n + 1) as int);
                                }
                            }
                        }
                    }
                    Result::Ok(cnt)
                },
                Result::Err(e) => {
                    proof {
                        assert(false);
                    }
                    Result::Err(e)
                },
            }
        }
    }
}

/// Every child's fragments are among the fragments of the child list.
proof fn lemma_fragments_elem_sub(kids: Seq<TrieV>, i: int, j: int)
    requires
        0 <= i <= j < kids.len(),
    ensures
        fragments_of(kids[j]).subset_of(fragments_of_kids(kids, i)),
    decreases j - i,
{
    broadcast use vstd::set::group_set_axioms;

    if i < j {
        lemma_fragments_elem_sub(kids, i + 1, j);
    }
}

/// Child lists equal from a position on have equal fragments from it.
proof fn lemma_fragments_same_suffix(kids: Seq<TrieV>, kids2: Seq<TrieV>, i: int)
    requires
        kids2.len() == kids.len(),
        0 <= i <= kids.len(),
        forall|k: int| i <= k < kids.len() ==> kids2[k] == kids[k],
    ensures
        fragments_of_kids(kids2, i) == fragments_of_kids(kids, i),
    decreases kids.len() - i,
{
    broadcast use vstd::set::group_set_axioms;

    if i < kids.len() {
        lemma_fragments_same_suffix(kids, kids2, i + 1);
        assert(fragments_of_kids(kids2, i) =~= fragments_of_kids(kids, i));
    }
}

/// Replacing one child exchanges its fragments against the new child's.
proof fn lemma_fragments_update(kids: Seq<TrieV>, kids2: Seq<TrieV>, j: int, i: int)
    requires
        kids2.len() == kids.len(),
        0 <= i <= j < kids.len(),
        forall|k: int| 0 <= k < kids.len() && k != j ==> kids2[k] == #[trigger] kids[k],
    ensures
        fragments_of_kids(kids2, i).union(fragments_of(kids[j])) == fragments_of_kids(
            kids,
            i,
        ).union(fragments_of(kids2[j])),
    decreases j - i,
{
    broadcast use vstd::set::group_set_axioms;

    if i < j {
        lemma_fragments_update(kids, kids2, j, i + 1);
        assert(kids2[i] == kids[i]);
        let a2 = fragments_of_kids(kids2, i + 1).union(fragments_of(kids[j]));
        let a1 = fragments_of_kids(kids, i + 1).union(fragments_of(kids2[j]));
        assert forall|x: Seq<char>|
            fragments_of_kids(kids2, i).union(fragments_of(kids[j])).contains(x)
                <==> fragments_of_kids(kids, i).union(fragments_of(kids2[j])).contains(x) by {
            assert(a2.contains(x) <==> a1.contains(x));
        }
    } else {
        lemma_fragments_same_suffix(kids, kids2, j + 1);
    }
    assert(fragments_of_kids(kids2, i).union(fragments_of(kids[j])) =~= fragments_of_kids(
        kids,
        i,
    ).union(fragments_of(kids2[j])));
}

/// A child list shifted one place to the right has the same fragments.
proof fn lemma_fragments_shift(kids: Seq<TrieV>, kids2: Seq<TrieV>, j: int, i: int)
    requires
        kids2.len() == kids.len() + 1,
        0 <= j <= i <= kids.len(),
        forall|k: int| j <= k < kids.len() ==> kids2[k + 1] == #[trigger] kids[k],
    ensures
        fragments_of_kids(kids2, i + 1) == fragments_of_kids(kids, i),
    decreases kids.len() - i,
{
    broadcast use vstd::set::group_set_axioms;

    if i < kids.len() {
        lemma_fragments_shift(kids, kids2, j, i + 1);
        assert(kids2[i + 1] == kids[i]);
        assert(fragments_of_kids(kids2, i + 1) =~= fragments_of_kids(kids, i));
    }
}

/// Inserting a child adds its fragments to the child list's.
proof fn lemma_fragments_insert(kids: Seq<TrieV>, kids2: Seq<TrieV>, j: int, i: int)
    requires
        kids2.len() == kids.len() + 1,
        0 <= i <= j <= kids.len(),
        forall|k: int| 0 <= k < j ==> kids2[k] == #[trigger] kids[k],
        forall|k: int| j <= k < kids.len() ==> kids2[k + 1] == #[trigger] kids[k],
    ensures
        fragments_of_kids(kids2, i) == fragments_of_kids(kids, i).union(
            fragments_of(kids2[j]),
        ),
    decreases j - i,
{
    broadcast use vstd::set::group_set_axioms;

    if i < j {
        lemma_fragments_insert(kids, kids2, j, i + 1);
        assert(kids2[i] == kids[i]);
        let a2 = fragments_of_kids(kids2, i + 1);
        let a1 = fragments_of_kids(kids, i + 1).union(fragments_of(kids2[j]));
        assert forall|x: Seq<char>|
            fragments_of_kids(kids2, i).contains(x) <==> fragments_of_kids(kids, i).union(
                fragments_of(kids2[j]),
            ).contains(x) by {
            assert(a2.contains(x) <==> a1.contains(x));
        }
    } else {
        lemma_fragments_shift(kids, kids2, j, j);
    }
    assert(fragments_of_kids(kids2, i) =~= fragments_of_kids(kids, i).union(
        fragments_of(kids2[j]),
    ));
}

/// When the child holding the word's next character absorbs the word's longer
/// prefixes, the node's fragment set grows by exactly the word's prefixes
/// from its own fragment on.
proof fn lemma_fragments_after_update(v0: TrieV, v1: TrieV, w: Seq<char>, j: int)
    requires
        v1.fragment == v0.fragment,
        v1.kids.len() == v0.kids.len(),
        0 <= j < v0.kids.len(),
        forall|k: int| 0 <= k < v0.kids.len() && k != j ==> v1.kids[k] == #[trigger] v0.kids[k],
        fragments_of(v1.kids[j]) == fragments_of(v0.kids[j]).union(
            word_prefixes(v0.fragment.len() as int + 1, w),
        ),
        w.len() > v0.fragment.len(),
        w.take(v0.fragment.len() as int) == v0.fragment,
    ensures
        fragments_of(v1) == fragments_of(v0).union(
            word_prefixes(v0.fragment.len() as int, w),
        ),
{
    broadcast use vstd::set::group_set_axioms;

    let flen = v0.fragment.len() as int;
    let wp0 = word_prefixes(flen, w);
    let wp1 = word_prefixes(flen + 1, w);
    let fk0 = fragments_of_kids(v0.kids, 0);
    let fk1 = fragments_of_kids(v1.kids, 0);
    let fc0 = fragments_of(v0.kids[j]);
    let fc1 = fragments_of(v1.kids[j]);
    lemma_fragments_update(v0.kids, v1.kids, j, 0);
    lemma_fragments_elem_sub(v0.kids, 0, j);
    lemma_fragments_elem_sub(v1.kids, 0, j);
    assert forall|x: Seq<char>| fragments_of(v1).contains(x) <==> fragments_of(v0).union(
        wp0,
    ).contains(x) by {
        assert(fk1.union(fc0).contains(x) <==> fk0.union(fc1).contains(x));
        assert(fc1.contains(x) <==> fc0.union(wp1).contains(x));
        if wp1.contains(x) {
            assert(wp0.contains(x));
        }
        if wp0.contains(x) && x.len() == flen {
            assert(x == v0.fragment);
        }
    }
    assert(fragments_of(v1) =~= fragments_of(v0).union(wp0));
}

/// When a fresh child is inserted for the word's next character and absorbs
/// the word's longer prefixes, the node's fragment set grows by exactly the
/// word's prefixes from its own fragment on.
proof fn lemma_fragments_after_insert(v0: TrieV, v1: TrieV, w: Seq<char>, j: int)
    requires
        v1.fragment == v0.fragment,
        v1.kids.len() == v0.kids.len() + 1,
        0 <= j <= v0.kids.len(),
        forall|k: int| 0 <= k < j ==> v1.kids[k] == #[trigger] v0.kids[k],
        forall|k: int| j <= k < v0.kids.len() ==> v1.kids[k + 1] == #[trigger] v0.kids[k],
        fragments_of(v1.kids[j]) == word_prefixes(v0.fragment.len() as int + 1, w),
        w.len() > v0.fragment.len(),
        w.take(v0.fragment.len() as int) == v0.fragment,
    ensures
        fragments_of(v1) == fragments_of(v0).union(
            word_prefixes(v0.fragment.len() as int, w),
        ),
{
    broadcast use vstd::set::group_set_axioms;

    let flen = v0.fragment.len() as int;
    let wp0 = word_prefixes(flen, w);
    let wp1 = word_prefixes(flen + 1, w);
    let fk0 = fragments_of_kids(v0.kids, 0);
    let fk1 = fragments_of_kids(v1.kids, 0);
    lemma_fragments_insert(v0.kids, v1.kids, j, 0);
    assert forall|x: Seq<char>| fragments_of(v1).contains(x) <==> fragments_of(v0).union(
        wp0,
    ).contains(x) by {
        assert(fk1.contains(x) <==> fk0.union(wp1).contains(x));
        if wp1.contains(x) {
            assert(wp0.contains(x));
        }
        if wp0.contains(x) && x.len() == flen {
            assert(x == v0.fragment);
        }
    }
    assert(fragments_of(v1) =~= fragments_of(v0).union(wp0));
}

/// Sums agree on child lists whose subtree counts agree pointwise.
proof fn lemma_sum_totals_pointwise(ka: Seq<TrieV>, kb: Seq<TrieV>, i: int)
    requires
        ka.len() == kb.len(),
        0 <= i <= ka.len(),
        forall|j: int| 0 <= j < ka.len() ==> (#[trigger] ka[j]).total == kb[j].total,
    ensures
        sum_totals(ka, i) == sum_totals(kb, i),
    decreases ka.len() - i,
{
    if i < ka.len() {
        lemma_sum_totals_pointwise(ka, kb, i + 1);
    }
}

/// Content determines every word count: two tries with the same fragments and
/// counts agree on the occurrences of every word, whatever their rendering
/// options.
pub proof fn lemma_data_determines_counts(a: TrieV, b: TrieV, u: Seq<char>)
    requires
        data_of(a) == data_of(b),
    ensures
        count_of(a, u) == count_of(b, u),
    decreases a, 1int,
{
    lemma_data_of_kids(a.kids, 0);
    lemma_data_of_kids(b.kids, 0);
    assert(a.kids.len() == b.kids.len());
    assert(forall|j: int|
        0 <= j < a.kids.len() ==> data_of(#[trigger] a.kids[j]) == data_of(b.kids[j])) by {
        assert(forall|j: int|
            0 <= j < a.kids.len() ==> data_of_kids(a.kids, 0)[j] == data_of(
                #[trigger] a.kids[j],
            ));
        assert(forall|j: int|
            0 <= j < b.kids.len() ==> data_of_kids(b.kids, 0)[j] == data_of(
                #[trigger] b.kids[j],
            ));
    }
    if u.len() > a.fragment.len() && u.take(a.fragment.len() as int) == a.fragment {
        lemma_data_counts_in_kids(a.kids, b.kids, u, u[a.fragment.len() as int], 0);
    }
}

proof fn lemma_data_counts_in_kids(
    ka: Seq<TrieV>,
    kb: Seq<TrieV>,
    u: Seq<char>,
    key: char,
    i: int,
)
    requires
        ka.len() == kb.len(),
        0 <= i <= ka.len(),
        forall|j: int| 0 <= j < ka.len() ==> data_of(#[trigger] ka[j]) == data_of(kb[j]),
    ensures
        count_in_kids(ka, u, key, i) == count_in_kids(kb, u, key, i),
    decreases ka, ka.len() - i,
{
    if 0 <= i < ka.len() {
        assert(ka[i].fragment == kb[i].fragment) by {
            assert(data_of(ka[i]).fragment == ka[i].fragment);
        }
        if key_of(ka[i]) == key {
            lemma_data_determines_counts(ka[i], kb[i], u);
        } else {
            lemma_data_counts_in_kids(ka, kb, u, key, i + 1);
        }
    }
}

/// Content also determines well-formedness: a trie stays well formed under
/// any change that keeps its fragments and counts.
pub proof fn lemma_data_determines_wf(a: TrieV, b: TrieV)
    requires
        data_of(a) == data_of(b),
        wf_v(a),
    ensures
        wf_v(b),
    decreases a, 1int,
{
    lemma_data_of_kids(a.kids, 0);
    lemma_data_of_kids(b.kids, 0);
    assert(a.kids.len() == b.kids.len());
    assert forall|j: int|
        0 <= j < a.kids.len() implies data_of(#[trigger] a.kids[j]) == data_of(b.kids[j])
            && a.kids[j].fragment == b.kids[j].fragment && a.kids[j].total == b.kids[j].total by {
        assert(data_of_kids(a.kids, 0)[j] == data_of(a.kids[j]));
        assert(data_of_kids(b.kids, 0)[j] == data_of(b.kids[j]));
        assert(data_of(a.kids[j]).fragment == a.kids[j].fragment);
        assert(data_of(a.kids[j]).total == a.kids[j].total);
    }
    lemma_sum_totals_pointwise(a.kids, b.kids, 0);
    assert(b.fragment == a.fragment && b.count == a.count && b.total == a.total);
    assert forall|j: int| 0 <= j < b.kids.len() implies (#[trigger] b.kids[j]).total >= 1 by {
        assert(a.kids[j].total >= 1);
        assert(b.kids[j].total == a.kids[j].total);
    }
    assert forall|j: int|
        0 <= j < b.kids.len() implies (#[trigger] b.kids[j]).fragment == b.fragment.push(
        key_of(b.kids[j]),
    ) by {
        assert(a.kids[j].fragment == a.fragment.push(key_of(a.kids[j])));
        assert(key_of(b.kids[j]) == key_of(a.kids[j]));
    }
    assert forall|j1: int, j2: int|
        #![trigger b.kids[j1], b.kids[j2]]
        0 <= j1 < j2 < b.kids.len() implies (key_of(b.kids[j1]) as u32) < (key_of(
        b.kids[j2],
    ) as u32) by {
        assert((key_of(a.kids[j1]) as u32) < (key_of(a.kids[j2]) as u32));
        assert(key_of(b.kids[j1]) == key_of(a.kids[j1]));
        assert(key_of(b.kids[j2]) == key_of(a.kids[j2]));
    }
    assert forall|j: int| 0 <= j < b.kids.len() implies wf_v(#[trigger] b.kids[j]) by {
        lemma_data_wf_kid(a.kids, b.kids, j);
    }
}

proof fn lemma_data_wf_kid(ka: Seq<TrieV>, kb: Seq<TrieV>, j: int)
    requires
        ka.len() == kb.len(),
        0 <= j < ka.len(),
        data_of(ka[j]) == data_of(kb[j]),
        wf_v(ka[j]),
    ensures
        wf_v(kb[j]),
    decreases ka, 2int,
{
    lemma_data_determines_wf(ka[j], kb[j]);
}

/// Skipping children whose key is not the one looked up leaves the count
/// unchanged.
proof fn lemma_count_in_kids_skip(kids: Seq<TrieV>, w: Seq<char>, key: char, i: int, j: int)
    requires
        0 <= i <= j <= kids.len(),
        forall|k: int| i <= k < j ==> key_of(#[trigger] kids[k]) != key,
    ensures
        count_in_kids(kids, w, key, i) == count_in_kids(kids, w, key, j),
    decreases j - i,
{
    if i < j {
        lemma_count_in_kids_skip(kids, w, key, i + 1, j);
    }
}

/// The count under a child list with a unique match is the count under the
/// matching child.
proof fn lemma_count_in_kids_unique(kids: Seq<TrieV>, w: Seq<char>, key: char, m: int)
    requires
        0 <= m < kids.len(),
        key_of(kids[m]) == key,
        forall|k: int| 0 <= k < m ==> key_of(#[trigger] kids[k]) != key,
    ensures
        count_in_kids(kids, w, key, 0) == count_of(kids[m], w),
{
    lemma_count_in_kids_skip(kids, w, key, 0, m);
}

/// A node with no children and a zero count holds no word at all.
proof fn lemma_count_of_leaf_zero(v: TrieV, w: Seq<char>)
    requires
        v.count == 0,
        v.kids.len() == 0,
    ensures
        count_of(v, w) == 0,
{
}

/// Every child's subtree count is bounded by the sum over the child list.
proof fn lemma_sum_totals_elem_bound(kids: Seq<TrieV>, i: int, j: int)
    requires
        0 <= i <= j < kids.len(),
    ensures
        kids[j].total <= sum_totals(kids, i),
    decreases j - i,
{
    if i < j {
        lemma_sum_totals_elem_bound(kids, i + 1, j);
    }
}

/// Child lists equal from a position on have equal sums from it.
proof fn lemma_sum_totals_same_suffix(kids: Seq<TrieV>, kids2: Seq<TrieV>, i: int)
    requires
        kids2.len() == kids.len(),
        0 <= i <= kids.len(),
        forall|k: int| i <= k < kids.len() ==> kids2[k] == kids[k],
    ensures
        sum_totals(kids2, i) == sum_totals(kids, i),
    decreases kids.len() - i,
{
    if i < kids.len() {
        lemma_sum_totals_same_suffix(kids, kids2, i + 1);
    }
}

/// Replacing one child changes the sum by the change in that child's subtree
/// count.
proof fn lemma_sum_totals_update(kids: Seq<TrieV>, kids2: Seq<TrieV>, j: int, i: int)
    requires
        kids2.len() == kids.len(),
        0 <= i <= j < kids.len(),
        forall|k: int| 0 <= k < kids.len() && k != j ==> kids2[k] == #[trigger] kids[k],
    ensures
        sum_totals(kids2, i) + kids[j].total == sum_totals(kids, i) + kids2[j].total,
    decreases j - i,
{
    if i < j {
        lemma_sum_totals_update(kids, kids2, j, i + 1);
    } else {
        lemma_sum_totals_same_suffix(kids, kids2, j + 1);
    }
}

/// A child list shifted one place to the right has the same sums.
proof fn lemma_sum_totals_shift(kids: Seq<TrieV>, kids2: Seq<TrieV>, j: int, i: int)
    requires
        kids2.len() == kids.len() + 1,
        0 <= j <= i <= kids.len(),
        forall|k: int| j <= k < kids.len() ==> kids2[k + 1] == #[trigger] kids[k],
    ensures
        sum_totals(kids2, i + 1) == sum_totals(kids, i),
    decreases kids.len() - i,
{
    if i < kids.len() {
        lemma_sum_totals_shift(kids, kids2, j, i + 1);
    }
}

/// Inserting a child adds its subtree count to the sum.
proof fn lemma_sum_totals_insert(kids: Seq<TrieV>, kids2: Seq<TrieV>, j: int, i: int)
    requires
        kids2.len() == kids.len() + 1,
        0 <= i <= j <= kids.len(),
        forall|k: int| 0 <= k < j ==> kids2[k] == #[trigger] kids[k],
        forall|k: int| j <= k < kids.len() ==> kids2[k + 1] == #[trigger] kids[k],
    ensures
        sum_totals(kids2, i) == sum_totals(kids, i) + kids2[j].total,
    decreases j - i,
{
    if i < j {
        lemma_sum_totals_insert(kids, kids2, j, i + 1);
    } else {
        lemma_sum_totals_shift(kids, kids2, j, j);
    }
}

/// Whether child `a` comes before child `b` under the given sort option. Ties
/// in the count orders fall back to the ascending key order, so on children
/// with distinct keys this is a strict total order.
pub open spec fn child_before(a: TrieV, b: TrieV, o: SortOption) -> bool {
    match o {
        SortOption::Value => (key_of(a) as u32) < (key_of(b) as u32),
        SortOption::ValueReversed => (key_of(a) as u32) > (key_of(b) as u32),
        SortOption::DirectCountAscending => a.count < b.count || (a.count == b.count && (key_of(a)
            as u32) < (key_of(b) as u32)),
        SortOption::DirectCountDescending => a.count > b.count || (a.count == b.count && (key_of(a)
            as u32) < (key_of(b) as u32)),
        SortOption::TotalCountAscending => a.total < b.total || (a.total == b.total && (key_of(a)
            as u32) < (key_of(b) as u32)),
        SortOption::TotalCountDescending => a.total > b.total || (a.total == b.total && (key_of(a)
            as u32) < (key_of(b) as u32)),
    }
}

/// The label a trie node renders as: nothing at the root, and otherwise the
/// fragment alone or the fragment, a tab, and the chosen count.
pub open spec fn label_of(v: TrieV) -> Seq<char> {
    if v.fragment.len() == 0 {
        Seq::empty()
    } else {
        match v.display {
            DisplayData::Bare => v.fragment,
            DisplayData::DirectCount => v.fragment + "\t"@ + crate::text::dec_rep(v.count),
            DisplayData::TotalCount => v.fragment + "\t"@ + crate::text::dec_rep(v.total),
        }
    }
}

/// Each child's view paired with its rendered shape: what the child order
/// sorts.
pub open spec fn shape_pairs(kids: Seq<TrieV>, i: int) -> Seq<(TrieV, Shape)>
    decreases kids, kids.len() - i,
{
    if 0 <= i < kids.len() {
        seq![(kids[i], trie_shape(kids[i]))] + shape_pairs(kids, i + 1)
    } else {
        Seq::empty()
    }
}

pub proof fn lemma_shape_pairs(kids: Seq<TrieV>, i: int)
    requires
        0 <= i <= kids.len(),
    ensures
        shape_pairs(kids, i).len() == kids.len() - i,
        forall|j: int|
            i <= j < kids.len() ==> shape_pairs(kids, i)[j - i] == (kids[j], trie_shape(kids[j])),
    decreases kids.len() - i,
{
    if i < kids.len() {
        lemma_shape_pairs(kids, i + 1);
    }
}

/// Inserts a pair into an already sorted run, after every pair that comes
/// before it.
pub open spec fn insert_pair(x: (TrieV, Shape), s: Seq<(TrieV, Shape)>, o: SortOption) -> Seq<
    (TrieV, Shape),
>
    decreases s.len(),
{
    if s.len() == 0 {
        seq![x]
    } else if child_before(s[0].0, x.0, o) {
        seq![s[0]] + insert_pair(x, s.skip(1), o)
    } else {
        seq![x] + s
    }
}

/// The first `n` pairs of `s`, sorted by repeated insertion: the stable
/// insertion sort the child order is defined by.
pub open spec fn sort_pairs_upto(s: Seq<(TrieV, Shape)>, o: SortOption, n: int) -> Seq<
    (TrieV, Shape),
>
    decreases n,
{
    if 0 < n <= s.len() {
        insert_pair(s[n - 1], sort_pairs_upto(s, o, n - 1), o)
    } else {
        Seq::empty()
    }
}

/// The pairs of `s`, sorted by the child order of `o`.
pub open spec fn sorted_pairs(s: Seq<(TrieV, Shape)>, o: SortOption) -> Seq<(TrieV, Shape)> {
    sort_pairs_upto(s, o, s.len() as int)
}

/// The tree a trie node presents for rendering: its label, over the shapes of
/// its children ordered by its own sort option.
pub open spec fn trie_shape(v: TrieV) -> Shape
    decreases v, 1int,
{
    Shape {
        label: label_of(v),
        kids: sorted_pairs(shape_pairs(v.kids, 0), v.sort).map_values(|p: (TrieV, Shape)| p.1),
    }
}

/// Inserting grows a run by one.
pub proof fn lemma_insert_pair_len(x: (TrieV, Shape), s: Seq<(TrieV, Shape)>, o: SortOption)
    ensures
        insert_pair(x, s, o).len() == s.len() + 1,
    decreases s.len(),
{
    if s.len() > 0 && child_before(s[0].0, x.0, o) {
        lemma_insert_pair_len(x, s.skip(1), o);
    }
}

/// Sorting keeps the length.
pub proof fn lemma_sort_pairs_len(s: Seq<(TrieV, Shape)>, o: SortOption, n: int)
    requires
        0 <= n <= s.len(),
    ensures
        sort_pairs_upto(s, o, n).len() == n,
    decreases n,
{
    if 0 < n {
        lemma_sort_pairs_len(s, o, n - 1);
        lemma_insert_pair_len(s[n - 1], sort_pairs_upto(s, o, n - 1), o);
    }
}

/// Inserting at the first position whose pair does not come before the new
/// one: exactly what the in-place insertion does.
pub proof fn lemma_insert_pair_at(
    x: (TrieV, Shape),
    s: Seq<(TrieV, Shape)>,
    o: SortOption,
    p: int,
)
    requires
        0 <= p <= s.len(),
        forall|t: int| 0 <= t < p ==> child_before((#[trigger] s[t]).0, x.0, o),
        p < s.len() ==> !child_before(s[p].0, x.0, o),
    ensures
        insert_pair(x, s, o) == s.take(p) + seq![x] + s.skip(p),
    decreases p,
{
    if p == 0 {
        assert(insert_pair(x, s, o) =~= s.take(0) + seq![x] + s.skip(0));
    } else {
        assert(forall|t: int| 0 <= t < p - 1 ==> (#[trigger] s.skip(1)[t]) == s[t + 1]);
        lemma_insert_pair_at(x, s.skip(1), o, p - 1);
        assert(seq![s[0]] + (s.skip(1).take(p - 1) + seq![x] + s.skip(1).skip(p - 1)) =~= s.take(p)
            + seq![x] + s.skip(p));
    }
}

/// Whether a run of pairs stands in order: each child comes before all the
/// later ones.
pub open spec fn pairs_ordered(s: Seq<(TrieV, Shape)>, o: SortOption) -> bool {
    forall|i: int, j: int|
        #![trigger s[i], s[j]]
        0 <= i < j < s.len() ==> child_before(s[i].0, s[j].0, o)
}

/// Whether the children in a run are told apart by their keys.
pub open spec fn distinct_keys(s: Seq<(TrieV, Shape)>) -> bool {
    forall|i: int, j: int|
        #![trigger s[i], s[j]]
        0 <= i < j < s.len() ==> (key_of(s[i].0) as u32) != (key_of(s[j].0) as u32)
}

/// Inserting a pair adds it to the run's contents and changes nothing else.
proof fn lemma_insert_pair_multiset(x: (TrieV, Shape), s: Seq<(TrieV, Shape)>, o: SortOption)
    ensures
        insert_pair(x, s, o).to_multiset() == s.to_multiset().insert(x),
    decreases s.len(),
{
    broadcast use vstd::seq_lib::group_to_multiset_ensures;

    if s.len() == 0 {
        assert(seq![x] =~= Seq::<(TrieV, Shape)>::empty().push(x));
        assert(insert_pair(x, s, o).to_multiset() =~= s.to_multiset().insert(x));
    } else if child_before(s[0].0, x.0, o) {
        lemma_insert_pair_multiset(x, s.skip(1), o);
        vstd::seq_lib::lemma_multiset_commutative(seq![s[0]], insert_pair(x, s.skip(1), o));
        vstd::seq_lib::lemma_multiset_commutative(seq![s[0]], s.skip(1));
        assert(s =~= seq![s[0]] + s.skip(1));
        assert(insert_pair(x, s, o).to_multiset() =~= s.to_multiset().insert(x));
    } else {
        vstd::seq_lib::lemma_multiset_commutative(seq![x], s);
        assert(seq![x] =~= Seq::<(TrieV, Shape)>::empty().push(x));
        assert(insert_pair(x, s, o).to_multiset() =~= s.to_multiset().insert(x));
    }
}

proof fn lemma_sort_pairs_permutes_upto(s: Seq<(TrieV, Shape)>, o: SortOption, n: int)
    requires
        0 <= n <= s.len(),
    ensures
        sort_pairs_upto(s, o, n).to_multiset() == s.take(n).to_multiset(),
    decreases n,
{
    broadcast use vstd::seq_lib::group_to_multiset_ensures;

    if 0 < n {
        lemma_sort_pairs_permutes_upto(s, o, n - 1);
        lemma_insert_pair_multiset(s[n - 1], sort_pairs_upto(s, o, n - 1), o);
        assert(s.take(n) =~= s.take(n - 1).push(s[n - 1]));
    } else {
        assert(s.take(0) =~= Seq::<(TrieV, Shape)>::empty());
    }
}

/// Sorting reorders the children and loses none: the sorted run holds exactly
/// the pairs it was given.
pub proof fn lemma_sorted_pairs_permutation(s: Seq<(TrieV, Shape)>, o: SortOption)
    ensures
        sorted_pairs(s, o).to_multiset() == s.to_multiset(),
{
    lemma_sort_pairs_permutes_upto(s, o, s.len() as int);
    assert(s.take(s.len() as int) =~= s);
}

/// Inserting into an ordered run of differently keyed children keeps it
/// ordered, and every element of the result is the new one or one of the old.
proof fn lemma_insert_pair_sorted(x: (TrieV, Shape), s: Seq<(TrieV, Shape)>, o: SortOption)
    requires
        pairs_ordered(s, o),
        forall|t: int|
            0 <= t < s.len() ==> (key_of((#[trigger] s[t]).0) as u32) != (key_of(x.0) as u32),
    ensures
        pairs_ordered(insert_pair(x, s, o), o),
        forall|t: int|
            0 <= t < insert_pair(x, s, o).len() ==> (#[trigger] insert_pair(x, s, o)[t]) == x
                || s.contains(insert_pair(x, s, o)[t]),
    decreases s.len(),
{
    let r = insert_pair(x, s, o);
    if s.len() == 0 {
        assert(r[0] == x);
    } else if child_before(s[0].0, x.0, o) {
        let tail = s.skip(1);
        assert(forall|t: int| 0 <= t < tail.len() ==> (#[trigger] tail[t]) == s[t + 1]);
        assert(pairs_ordered(tail, o)) by {
            assert forall|i: int, j: int|
                #![trigger tail[i], tail[j]]
                0 <= i < j < tail.len() implies child_before(tail[i].0, tail[j].0, o) by {
                assert(tail[i] == s[i + 1]);
                assert(tail[j] == s[j + 1]);
            }
        }
        lemma_insert_pair_sorted(x, tail, o);
        let inner = insert_pair(x, tail, o);
        assert(r =~= seq![s[0]] + inner);
        assert forall|i: int, j: int|
            #![trigger r[i], r[j]]
            0 <= i < j < r.len() implies child_before(r[i].0, r[j].0, o) by {
            if i == 0 {
                let e = r[j];
                assert(e == inner[j - 1]);
                if e == x {
                } else {
                    assert(tail.contains(e));
                    let k = choose|k: int| 0 <= k < tail.len() && tail[k] == e;
                    assert(s[k + 1] == e);
                    assert(child_before(s[0].0, s[k + 1].0, o));
                }
            } else {
                assert(r[i] == inner[i - 1]);
                assert(r[j] == inner[j - 1]);
            }
        }
        assert forall|t: int| 0 <= t < r.len() implies (#[trigger] r[t]) == x || s.contains(
            r[t],
        ) by {
            if t == 0 {
                assert(s[0] == r[0]);
            } else {
                assert(r[t] == inner[t - 1]);
                if inner[t - 1] == x {
                } else {
                    assert(tail.contains(inner[t - 1]));
                    let k = choose|k: int| 0 <= k < tail.len() && tail[k] == inner[t - 1];
                    assert(s[k + 1] == inner[t - 1]);
                }
            }
        }
    } else {
        assert(r =~= seq![x] + s);
        assert((key_of(s[0].0) as u32) != (key_of(x.0) as u32));
        assert(child_before(x.0, s[0].0, o));
        assert forall|i: int, j: int|
            #![trigger r[i], r[j]]
            0 <= i < j < r.len() implies child_before(r[i].0, r[j].0, o) by {
            if i == 0 {
                assert(r[j] == s[j - 1]);
                if j > 1 {
                    assert(child_before(s[0].0, s[j - 1].0, o));
                }
            } else {
                assert(r[i] == s[i - 1]);
                assert(r[j] == s[j - 1]);
            }
        }
        assert forall|t: int| 0 <= t < r.len() implies (#[trigger] r[t]) == x || s.contains(
            r[t],
        ) by {
            if t > 0 {
                assert(r[t] == s[t - 1]);
            }
        }
    }
}

proof fn lemma_sort_pairs_ordered_upto(s: Seq<(TrieV, Shape)>, o: SortOption, n: int)
    requires
        distinct_keys(s),
        0 <= n <= s.len(),
    ensures
        pairs_ordered(sort_pairs_upto(s, o, n), o),
        forall|t: int|
            0 <= t < sort_pairs_upto(s, o, n).len() ==> exists|k: int|
                0 <= k < n && (#[trigger] sort_pairs_upto(s, o, n)[t]) == s[k],
    decreases n,
{
    if 0 < n {
        lemma_sort_pairs_ordered_upto(s, o, n - 1);
        let run = sort_pairs_upto(s, o, n - 1);
        let x = s[n - 1];
        assert forall|t: int|
            0 <= t < run.len() implies (key_of((#[trigger] run[t]).0) as u32) != (key_of(x.0)
            as u32) by {
            let k = choose|k: int| 0 <= k < n - 1 && run[t] == s[k];
            assert((key_of(s[k].0) as u32) != (key_of(s[n - 1].0) as u32));
        }
        lemma_insert_pair_sorted(x, run, o);
        let r = sort_pairs_upto(s, o, n);
        assert forall|t: int| 0 <= t < r.len() implies exists|k: int|
            0 <= k < n && (#[trigger] r[t]) == s[k] by {
            if r[t] == x {
                assert(r[t] == s[n - 1]);
            } else {
                assert(run.contains(r[t]));
                let u = choose|u: int| 0 <= u < run.len() && run[u] == r[t];
                let k = choose|k: int| 0 <= k < n - 1 && run[u] == s[k];
                assert(r[t] == s[k]);
            }
        }
    }
}

/// Sorting really orders the children: in a run of differently keyed
/// children — as a well-formed node's always are — each sorted child comes
/// before all the later ones under the chosen option.
pub proof fn lemma_sorted_pairs_ordered(s: Seq<(TrieV, Shape)>, o: SortOption)
    requires
        distinct_keys(s),
    ensures
        pairs_ordered(sorted_pairs(s, o), o),
{
    lemma_sort_pairs_ordered_upto(s, o, s.len() as int);
}

/// Rendering-order law: a well-formed trie node renders exactly its stored
/// children — none dropped, duplicated or invented — permuted into the order
/// its sort option names.
pub proof fn lemma_trie_children_order(v: TrieV)
    requires
        wf_v(v),
    ensures
        trie_shape(v).kids.len() == v.kids.len(),
        sorted_pairs(shape_pairs(v.kids, 0), v.sort).to_multiset() == shape_pairs(
            v.kids,
            0,
        ).to_multiset(),
        pairs_ordered(sorted_pairs(shape_pairs(v.kids, 0), v.sort), v.sort),
{
    let pairs = shape_pairs(v.kids, 0);
    lemma_shape_pairs(v.kids, 0);
    lemma_sort_pairs_len(pairs, v.sort, pairs.len() as int);
    assert(distinct_keys(pairs)) by {
        assert forall|i: int, j: int|
            #![trigger pairs[i], pairs[j]]
            0 <= i < j < pairs.len() implies (key_of(pairs[i].0) as u32) != (key_of(
            pairs[j].0,
        ) as u32) by {
            assert(pairs[i].0 == v.kids[i]);
            assert(pairs[j].0 == v.kids[j]);
        }
    }
    lemma_sorted_pairs_permutation(pairs, v.sort);
    lemma_sorted_pairs_ordered(pairs, v.sort);
}

/// The view-and-shape pairs of a sequence of borrowed trie nodes.
pub open spec fn ref_pairs(s: Seq<&Trie>) -> Seq<(TrieV, Shape)> {
    Seq::new(s.len(), |t: int| (s[t]@, trie_shape(s[t]@)))
}

/// How many of the words `ws` equal `w`.
pub open spec fn occurrences_in(ws: Seq<Seq<char>>, w: Seq<char>) -> nat
    decreases ws.len(),
{
    if ws.len() == 0 {
        0
    } else {
        occurrences_in(ws.drop_last(), w) + (if ws.last() == w {
            1nat
        } else {
            0nat
        })
    }
}

impl Default for Trie {
    /// An empty trie sorted by value and displaying direct counts, as
    /// [`Trie::new`] returns.
    fn default() -> (r: Self)
        ensures
            r.well_formed(),
            opts_synced(r@, SortOption::Value, DisplayData::DirectCount),
            r@ == (TrieV {
                fragment: Seq::<char>::empty(),
                count: 0,
                total: 0,
                kids: Seq::<TrieV>::empty(),
                sort: SortOption::Value,
                display: DisplayData::DirectCount,
            }),
    {
        Self::new()
    }
}

/// Decides whether child `a` comes before child `b` under the given option.
fn child_before_exec(a: &Trie, b: &Trie, o: SortOption) -> (r: bool)
    requires
        a@.fragment.len() >= 1,
        b@.fragment.len() >= 1,
    ensures
        r == child_before(a@, b@, o),
{
    match o {
        SortOption::Value => (a.key_char() as u32) < (b.key_char() as u32),
        SortOption::ValueReversed => (a.key_char() as u32) > (b.key_char() as u32),
        SortOption::DirectCountAscending => a.count < b.count || (a.count == b.count && (
        a.key_char() as u32) < (b.key_char() as u32)),
        SortOption::DirectCountDescending => a.count > b.count || (a.count == b.count && (
        a.key_char() as u32) < (b.key_char() as u32)),
        SortOption::TotalCountAscending => a.descendents_count < b.descendents_count || (
        a.descendents_count == b.descendents_count && (a.key_char() as u32) < (b.key_char()
            as u32)),
        SortOption::TotalCountDescending => a.descendents_count > b.descendents_count || (
        a.descendents_count == b.descendents_count && (a.key_char() as u32) < (b.key_char()
            as u32)),
    }
}

impl Node for Trie {
    open spec fn shape(&self) -> Shape {
        trie_shape(self@)
    }

    open spec fn valid(&self) -> bool {
        wf_v(self@)
    }

    /// Returns a displayable representation of this trie node: empty at the
    /// root, and otherwise the word fragment, alone or followed by a tab and
    /// the displayed count.
    fn value(&self) -> (r: String) {
        let flen = self.fragment.as_str().unicode_len();
        if flen == 0 {
            return String::new();
        }
        match self.display_data {
            DisplayData::Bare => self.fragment.clone(),
            DisplayData::DirectCount => {
                let mut s = self.fragment.clone();
                s.append("\t");
                let c = crate::text::usize_to_string(self.count);
                s.append(c.as_str());
                proof {
                    assert(s@ =~= label_of(self@));
                }
                s
            },
            DisplayData::TotalCount => {
                let mut s = self.fragment.clone();
                s.append("\t");
                let c = crate::text::usize_to_string(self.descendents_count);
                s.append(c.as_str());
                proof {
                    assert(s@ =~= label_of(self@));
                }
                s
            },
        }
    }

    /// Returns the stored children reordered per this node's sort option:
    /// lexicographically by key, ascending or descending, or by direct or
    /// subtree count, ascending or descending, ties falling back to the
    /// ascending key order.
    fn children(&self) -> (r: Vec<&Self>) {
        let ghost v = self@;
        proof {
            lemma_trie_kids_view(self.children@, 0);
            lemma_shape_pairs(v.kids, 0);
            lemma_sort_pairs_len(shape_pairs(v.kids, 0), v.sort, v.kids.len() as int);
        }
        let ghost pairs = shape_pairs(v.kids, 0);
        let n = self.children.len();
        let mut out: Vec<&Trie> = Vec::new();
        let mut i: usize = 0;
        while i < n
            invariant
                i <= n,
                n == v.kids.len(),
                v == self@,
                wf_v(v),
                self.children@.len() == n,
                pairs == shape_pairs(v.kids, 0),
                pairs.len() == n,
                forall|j: int| 0 <= j < n ==> v.kids[j] == trie_view(self.children@[j]),
                forall|j: int| 0 <= j < n ==> #[trigger] pairs[j] == (v.kids[j], trie_shape(
                    v.kids[j],
                )),
                out@.len() == i,
                ref_pairs(out@) == sort_pairs_upto(pairs, v.sort, i as int),
                forall|t: int|
                    0 <= t < out@.len() ==> wf_v((#[trigger] out@[t])@) && out@[t]@.fragment.len()
                        >= 1,
            decreases n - i,
        {
            let x: &Trie = &self.children[i];
            proof {
                assert(x@ == v.kids[i as int]);
                assert(x@.fragment == v.fragment.push(key_of(x@)));
                assert(wf_v(x@));
            }
            let olen = out.len();
            let mut p: usize = 0;
            while p < olen && child_before_exec(out[p], x, self.sort_option)
                invariant
                    p <= olen,
                    olen == out@.len(),
                    x@ == v.kids[i as int],
                    x@.fragment.len() >= 1,
                    v.sort == self.sort_option,
                    forall|t: int|
                        0 <= t < out@.len() ==> wf_v((#[trigger] out@[t])@)
                            && out@[t]@.fragment.len() >= 1,
                    forall|t: int| 0 <= t < p ==> child_before((#[trigger] out@[t])@, x@, v.sort),
                decreases olen - p,
            {
                p = p + 1;
            }
            let ghost run = ref_pairs(out@);
            proof {
                assert(forall|t: int| 0 <= t < p ==> child_before((#[trigger] run[t]).0, x@, v.sort));
                if p < olen {
                    assert(!child_before(run[p as int].0, x@, v.sort));
                }
                lemma_insert_pair_at((x@, trie_shape(x@)), run, v.sort, p as int);
            }
            out.insert(p, x);
            proof {
                assert(ref_pairs(out@) =~= run.take(p as int) + seq![(x@, trie_shape(x@))]
                    + run.skip(p as int));
                assert(pairs[i as int] == (x@, trie_shape(x@)));
                assert(sort_pairs_upto(pairs, v.sort, i + 1) == insert_pair(
                    pairs[i as int],
                    sort_pairs_upto(pairs, v.sort, i as int),
                    v.sort,
                ));
                assert(ref_pairs(out@) == sort_pairs_upto(pairs, v.sort, i + 1));
            }
            i = i + 1;
        }
        proof {
            let sorted = sorted_pairs(pairs, v.sort);
            assert(ref_pairs(out@) == sorted);
            assert(trie_shape(v).kids == sorted.map_values(|p2: (TrieV, Shape)| p2.1));
            assert forall|t: int| 0 <= t < out@.len() implies (#[trigger] out@[t]).shape()
                == trie_shape(v).kids[t] by {
                assert(ref_pairs(out@)[t] == (out@[t]@, trie_shape(out@[t]@)));
                assert(trie_shape(v).kids[t] == sorted[t].1);
            }
        }
        out
    }
}

impl Trie {
    /// Returns the number of children of this node, and each of their
    /// children, recursively.
    pub fn count_descendents(&self) -> (n: usize)
        requires
            self.well_formed(),
            descendant_count(trie_shape(self@)) <= usize::MAX,
        ensures
            n == descendant_count(trie_shape(self@)),
    {
        count_descendents_of(self)
    }

    /// Renders the tree rooted at this node.
    pub fn render(&self) -> (r: String)
        requires
            self.well_formed(),
        ensures
            r@ == render_shape(trie_shape(self@)),
    {
        render_node(self)
    }
}

/// Aggregate-count law: in every well-formed trie node — and every
/// constructor and mutation of this module yields well-formed nodes — the
/// subtree count equals the direct count plus the sum of the children's
/// subtree counts.
pub proof fn lemma_subtree_count(v: TrieV)
    requires
        wf_v(v),
    ensures
        v.total == v.count + sum_totals(v.kids, 0),
{
}

} // verus!
