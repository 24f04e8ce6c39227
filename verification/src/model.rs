//! Mathematical model of a trie node.
//!
//! `NodeView` mirrors the executable `Node` structure with ghost
//! sequences in place of vectors; every contract of the library is
//! stated over this model: the greedy walk (`walk_len`, `walk_node`),
//! the tokenizations it induces (`extract_from`,
//! `extract_infallible_from`), the enumeration of accepting paths
//! (`paths`), and the normal form produced by sorting (`normalized`).

use vstd::prelude::*;

use crate::error::TransitionErrorView;

use core::cmp::Ordering;
use vstd::std_specs::cmp::OrdSpec;

verus! {

/// A lawful total order for a token-value type: the executable
/// comparison agrees with its specification, equal means identical,
/// the order is antisymmetric and transitive. Derived orders on plain
/// value types behave this way; contracts that group or sort by value
/// promise their results under this hypothesis.
pub open spec fn cmp_lawful<T: Ord>() -> bool {
    &&& T::obeys_cmp_spec()
    &&& forall|a: T, b: T| (#[trigger] a.cmp_spec(&b)) == Ordering::Equal <==> a == b
    &&& forall|a: T, b: T| (#[trigger] a.cmp_spec(&b)) == Ordering::Less <==> b.cmp_spec(&a)
        == Ordering::Greater
    &&& forall|a: T, b: T, c: T|
        #[trigger] a.cmp_spec(&b) == Ordering::Less && #[trigger] b.cmp_spec(&c) == Ordering::Less
            ==> a.cmp_spec(&c) == Ordering::Less
}

/// Ghost counterpart of `Token`: one element of the inline-error
/// extraction's output, a token value or the record of a failed
/// attempt.
pub enum TokenView<T> {
    Token(T),
    Error(TransitionErrorView),
}

/// Ghost counterpart of a trie node: an optional output value and an
/// optional sequence of labelled edges to child nodes.
pub struct NodeView<T> {
    pub output: Option<T>,
    pub edges: Option<Seq<(char, NodeView<T>)>>,
}

/// Inserts one labelled edge into a key-sorted edge sequence, after
/// every entry whose key is less than or equal to its own.
pub open spec fn insert_entry<T>(
    s: Seq<(char, NodeView<T>)>,
    x: (char, NodeView<T>),
) -> Seq<(char, NodeView<T>)>
    decreases s.len(),
{
    if s.len() == 0 {
        seq![x]
    } else if x.0 < s.last().0 {
        insert_entry(s.drop_last(), x).push(s.last())
    } else {
        s.push(x)
    }
}

/// Stable insertion sort of an edge sequence by key, ascending: the
/// normal order that binary-search lookup relies on.
pub open spec fn sort_entries<T>(s: Seq<(char, NodeView<T>)>) -> Seq<(char, NodeView<T>)>
    decreases s.len(),
{
    if s.len() == 0 {
        Seq::empty()
    } else {
        insert_entry(sort_entries(s.drop_last()), s.last())
    }
}

impl<T> NodeView<T> {
    /// The edge sequence, or empty when the node is a leaf.
    pub open spec fn edge_seq(self) -> Seq<(char, NodeView<T>)> {
        match self.edges {
            Some(es) => es,
            None => Seq::empty(),
        }
    }

    /// Keys are strictly increasing at this node and, recursively, at
    /// every descendant: sorted with unique keys, the invariant that
    /// construction establishes and lookup requires.
    pub open spec fn sorted(self) -> bool
        decreases self,
    {
        forall|i: int, j: int|
            0 <= i <= j < self.edge_seq().len() ==> {
                &&& i < j ==> (#[trigger] self.edge_seq()[i]).0 < (#[trigger] self.edge_seq()[j]).0
                &&& self.edge_seq()[j].1.sorted()
            }
    }

    /// Keys are non-decreasing at every node: what sorting alone
    /// guarantees, whether or not the given keys were distinct.
    pub open spec fn sorted_weak(self) -> bool
        decreases self,
    {
        forall|i: int, j: int|
            0 <= i <= j < self.edge_seq().len() ==> {
                &&& i < j ==> (#[trigger] self.edge_seq()[i]).0 <= (#[trigger] self.edge_seq()[j]).0
                &&& self.edge_seq()[j].1.sorted_weak()
            }
    }

    /// No two edges of any node share a key, in whatever order the
    /// edges stand.
    pub open spec fn keys_unique(self) -> bool
        decreases self,
    {
        forall|i: int, j: int|
            0 <= i <= j < self.edge_seq().len() ==> {
                &&& i < j ==> (#[trigger] self.edge_seq()[i]).0 != (#[trigger] self.edge_seq()[j]).0
                &&& self.edge_seq()[j].1.keys_unique()
            }
    }

    /// Every dead-end node carries an output: the shape that the
    /// `leaf` and `branch` constructors guarantee.
    pub open spec fn leaves_accept(self) -> bool
        decreases self,
    {
        &&& (self.edges is None ==> self.output is Some)
        &&& forall|j: int|
            0 <= j < self.edge_seq().len() ==> (#[trigger] self.edge_seq()[j]).1.leaves_accept()
    }

    /// Whether some edge of this node is labelled `c`.
    pub open spec fn has_edge(self, c: char) -> bool {
        exists|i: int| 0 <= i < self.edge_seq().len() && (#[trigger] self.edge_seq()[i]).0 == c
    }

    /// The index of an edge labelled `c`; with unique keys it is the
    /// only one.
    pub open spec fn edge_index(self, c: char) -> int {
        choose|i: int| 0 <= i < self.edge_seq().len() && (#[trigger] self.edge_seq()[i]).0 == c
    }

    /// The child reached along the edge labelled `c`.
    pub open spec fn child(self, c: char) -> NodeView<T> {
        self.edge_seq()[self.edge_index(c)].1
    }

    /// How many characters of `cs` the greedy walk consumes from this
    /// node: it follows transitions as long as one exists, never
    /// stopping early at an accepting node.
    pub open spec fn walk_len(self, cs: Seq<char>) -> nat
        decreases cs.len(),
    {
        if cs.len() > 0 && self.has_edge(cs[0]) {
            1 + self.child(cs[0]).walk_len(cs.skip(1))
        } else {
            0
        }
    }

    /// The node at which the greedy walk over `cs` stops.
    pub open spec fn walk_node(self, cs: Seq<char>) -> NodeView<T>
        decreases cs.len(),
    {
        if cs.len() > 0 && self.has_edge(cs[0]) {
            self.child(cs[0]).walk_node(cs.skip(1))
        } else {
            self
        }
    }

    /// The greedy walk never consumes more characters than there are.
    pub proof fn lemma_walk_len_bound(self, cs: Seq<char>)
        ensures
            self.walk_len(cs) <= cs.len(),
        decreases cs.len(),
    {
        if cs.len() > 0 && self.has_edge(cs[0]) {
            self.child(cs[0]).lemma_walk_len_bound(cs.skip(1));
        }
    }

    /// Every (path, output) pair of an accepting node below this one,
    /// in depth-first transition order, the node's own output first.
    pub open spec fn paths(self) -> Seq<(Seq<char>, T)>
        decreases self,
    {
        let own = match self.output {
            Some(t) => seq![(Seq::<char>::empty(), t)],
            None => Seq::empty(),
        };
        own + (match self.edges {
            Some(es) => paths_of_entries(es),
            None => Seq::empty(),
        })
    }

    /// How far one tokenization step at position `pos` advances: by the
    /// characters the greedy walk consumes, and by at least one, so that
    /// the position never stands still.
    pub open spec fn step_advance(self, cs: Seq<char>, pos: nat) -> nat {
        let k = self.walk_len(cs.skip(pos as int));
        if k == 0 {
            1
        } else if k <= cs.len() - pos {
            k
        } else {
            (cs.len() - pos) as nat
        }
    }

    /// Fail-fast tokenization of `cs` from position `pos`: repeatedly
    /// match greedily from this node, collecting each output and
    /// advancing by the characters consumed, until the text is spent;
    /// the first failed attempt is the overall result, and any tokens
    /// already collected are discarded.
    pub open spec fn extract_from(self, cs: Seq<char>, pos: nat) -> Result<
        Seq<T>,
        TransitionErrorView,
    >
        decreases cs.len() - pos,
        when pos <= cs.len()
    {
        if pos >= cs.len() {
            Ok(Seq::empty())
        } else {
            let rest = cs.skip(pos as int);
            let k = self.walk_len(rest);
            match self.walk_node(rest).output {
                Some(t) => match self.extract_from(cs, pos + self.step_advance(cs, pos)) {
                    Ok(toks) => Ok(seq![t] + toks),
                    Err(e) => Err(e),
                },
                None => Err(
                    TransitionErrorView {
                        consumed: rest.take(k as int),
                        character: if k < rest.len() {
                            Some(rest[k as int])
                        } else {
                            None
                        },
                        start: pos as int,
                        end: pos + k as int,
                    },
                ),
            }
        }
    }

    /// Inline-error tokenization of `cs` from position `pos`: the same
    /// walk, but a failed attempt becomes an element of the output and
    /// extraction resumes behind it, moving forward by at least one
    /// character on every step.
    pub open spec fn extract_infallible_from(self, cs: Seq<char>, pos: nat) -> Seq<TokenView<T>>
        decreases cs.len() - pos,
        when pos <= cs.len()
    {
        if pos >= cs.len() {
            Seq::empty()
        } else {
            let rest = cs.skip(pos as int);
            let k = self.walk_len(rest);
            let head = match self.walk_node(rest).output {
                Some(t) => TokenView::Token(t),
                None => TokenView::Error(
                    TransitionErrorView {
                        consumed: rest.take(k as int),
                        character: if k < rest.len() {
                            Some(rest[k as int])
                        } else {
                            None
                        },
                        start: pos as int,
                        end: pos + k as int,
                    },
                ),
            };
            seq![head] + self.extract_infallible_from(cs, pos + self.step_advance(cs, pos))
        }
    }

    /// The characters that each successful matching step consumes, in
    /// order, for a text that tokenizes without error from `pos`.
    pub open spec fn consumed_counts(self, cs: Seq<char>, pos: nat) -> Seq<nat>
        decreases cs.len() - pos,
        when pos <= cs.len()
    {
        if pos >= cs.len() {
            Seq::empty()
        } else {
            match self.walk_node(cs.skip(pos as int)).output {
                Some(t) => seq![self.step_advance(cs, pos)] + self.consumed_counts(
                    cs,
                    pos + self.step_advance(cs, pos),
                ),
                None => Seq::empty(),
            }
        }
    }

    /// The tree after normalization: every node's edges stably sorted
    /// by key, ascending, children first.
    pub open spec fn normalized(self) -> NodeView<T>
        decreases self,
    {
        NodeView {
            output: self.output,
            edges: match self.edges {
                None => None,
                Some(es) => Some(sort_entries(normalize_entries(es))),
            },
        }
    }
}

/// The paths of a sequence of labelled edges, in order: each child's
/// paths behind its own edge label.
pub open spec fn paths_of_entries<T>(es: Seq<(char, NodeView<T>)>) -> Seq<(Seq<char>, T)>
    decreases es,
{
    if es.len() == 0 {
        Seq::empty()
    } else {
        paths_of_entries(es.drop_last()) + prefix_paths(es.last().0, es.last().1.paths())
    }
}

/// Normalizes every child of a sequence of labelled edges, keeping the
/// edges in place.
pub open spec fn normalize_entries<T>(es: Seq<(char, NodeView<T>)>) -> Seq<(char, NodeView<T>)>
    decreases es,
{
    if es.len() == 0 {
        Seq::empty()
    } else {
        normalize_entries(es.drop_last()).push((es.last().0, es.last().1.normalized()))
    }
}

/// Each entry of a normalized edge sequence is the entry in place,
/// its child normalized.
pub proof fn lemma_normalize_entries<T>(es: Seq<(char, NodeView<T>)>)
    ensures
        normalize_entries(es).len() == es.len(),
        forall|k: int|
            0 <= k < es.len() ==> (#[trigger] normalize_entries(es)[k]) == (
                es[k].0,
                es[k].1.normalized(),
            ),
    decreases es.len(),
{
    if es.len() > 0 {
        lemma_normalize_entries(es.drop_last());
        let base = normalize_entries(es.drop_last());
        assert(normalize_entries(es) == base.push((es.last().0, es.last().1.normalized())));
        assert forall|k: int| 0 <= k < es.len() implies (#[trigger] normalize_entries(es)[k]) == (
            es[k].0,
            es[k].1.normalized(),
        ) by {
            if k < es.len() - 1 {
                assert(normalize_entries(es)[k] == base[k]);
                assert(es.drop_last()[k] == es[k]);
            }
        }
    }
}

/// Where `insert_entry` places its entry: before the maximal suffix of
/// entries whose keys are greater, after everything else.
pub proof fn lemma_insert_entry_at<T>(s: Seq<(char, NodeView<T>)>, x: (char, NodeView<T>), m: int)
    requires
        0 <= m <= s.len(),
        forall|k: int| m <= k < s.len() ==> x.0 < (#[trigger] s[k]).0,
        m > 0 ==> !(x.0 < s[m - 1].0),
    ensures
        insert_entry(s, x) == s.take(m) + seq![x] + s.skip(m),
    decreases s.len(),
{
    if s.len() == 0 {
        assert(insert_entry(s, x) =~= s.take(m) + seq![x] + s.skip(m));
    } else if x.0 < s.last().0 {
        assert(m < s.len());
        lemma_insert_entry_at(s.drop_last(), x, m);
        assert(insert_entry(s, x) =~= s.take(m) + seq![x] + s.skip(m));
    } else {
        assert(m == s.len()) by {
            if m < s.len() {
                assert(x.0 < s[s.len() - 1].0);
            }
        }
        assert(insert_entry(s, x) == s.push(x));
        assert(s.push(x) =~= s.take(m) + seq![x] + s.skip(m));
    }
}

/// One sorting step: the next entry folded into the sorted prefix.
pub proof fn lemma_sort_entries_step<T>(s: Seq<(char, NodeView<T>)>, p: int)
    requires
        0 <= p < s.len(),
    ensures
        sort_entries(s.take(p + 1)) == insert_entry(sort_entries(s.take(p)), s[p]),
{
    assert(s.take(p + 1).drop_last() =~= s.take(p));
    assert(s.take(p + 1).last() == s[p]);
}

/// Prepends a whole prefix to every path of `ps`.
pub open spec fn prepend_all<T>(pre: Seq<char>, ps: Seq<(Seq<char>, T)>) -> Seq<(Seq<char>, T)> {
    ps.map(|i: int, pr: (Seq<char>, T)| (pre + pr.0, pr.1))
}

/// Prepending nothing changes nothing.
pub proof fn lemma_prepend_all_empty<T>(ps: Seq<(Seq<char>, T)>)
    ensures
        prepend_all(Seq::empty(), ps) == ps,
{
    assert forall|i: int| 0 <= i < ps.len() implies (#[trigger] prepend_all(
        Seq::<char>::empty(),
        ps,
    )[i]) == ps[i] by {
        assert(Seq::<char>::empty() + ps[i].0 =~= ps[i].0);
    }
    assert(prepend_all(Seq::empty(), ps) =~= ps);
}

/// Prepending a prefix and then one more character is prepending the
/// longer prefix.
pub proof fn lemma_prepend_all_step<T>(pre: Seq<char>, c: char, ps: Seq<(Seq<char>, T)>)
    ensures
        prepend_all(pre, prefix_paths(c, ps)) == prepend_all(pre.push(c), ps),
{
    assert forall|i: int| 0 <= i < ps.len() implies (#[trigger] prepend_all(
        pre,
        prefix_paths(c, ps),
    )[i]) == prepend_all(pre.push(c), ps)[i] by {
        assert(prefix_paths(c, ps)[i] == (seq![c] + ps[i].0, ps[i].1));
        assert(pre + (seq![c] + ps[i].0) =~= pre.push(c) + ps[i].0);
    }
    assert(prepend_all(pre, prefix_paths(c, ps)) =~= prepend_all(pre.push(c), ps));
}

/// Prepending distributes over concatenation of path lists.
pub proof fn lemma_prepend_all_add<T>(pre: Seq<char>, a: Seq<(Seq<char>, T)>, b: Seq<(Seq<char>, T)>)
    ensures
        prepend_all(pre, a + b) == prepend_all(pre, a) + prepend_all(pre, b),
{
    assert(prepend_all(pre, a + b) =~= prepend_all(pre, a) + prepend_all(pre, b));
}

/// One enumeration step: the paths of the first `p + 1` edges are those
/// of the first `p`, then the paths behind edge `p`.
pub proof fn lemma_paths_of_entries_step<T>(es: Seq<(char, NodeView<T>)>, p: int)
    requires
        0 <= p < es.len(),
    ensures
        paths_of_entries(es.take(p + 1)) == paths_of_entries(es.take(p)) + prefix_paths(
            es[p].0,
            es[p].1.paths(),
        ),
{
    assert(es.take(p + 1).drop_last() =~= es.take(p));
    assert(es.take(p + 1).last() == es[p]);
}

/// An edge prefix never yields more paths than the whole sequence.
pub proof fn lemma_paths_of_entries_take_len<T>(es: Seq<(char, NodeView<T>)>, i: int)
    requires
        0 <= i <= es.len(),
    ensures
        paths_of_entries(es.take(i)).len() <= paths_of_entries(es).len(),
    decreases es.len() - i,
{
    if i < es.len() {
        lemma_paths_of_entries_step(es, i);
        lemma_paths_of_entries_take_len(es, i + 1);
    } else {
        assert(es.take(i) =~= es);
    }
}

/// Whether some entry of `s` is keyed `c`.
pub open spec fn key_in<T>(s: Seq<(char, NodeView<T>)>, c: char) -> bool {
    exists|i: int| 0 <= i < s.len() && (#[trigger] s[i]).0 == c
}

/// Keys non-decreasing along an edge sequence.
pub open spec fn keys_sorted_weak<T>(s: Seq<(char, NodeView<T>)>) -> bool {
    forall|i: int, j: int| 0 <= i < j < s.len() ==> (#[trigger] s[i]).0 <= (#[trigger] s[j]).0
}

/// Keys strictly increasing along an edge sequence.
pub open spec fn keys_sorted<T>(s: Seq<(char, NodeView<T>)>) -> bool {
    forall|i: int, j: int| 0 <= i < j < s.len() ==> (#[trigger] s[i]).0 < (#[trigger] s[j]).0
}

/// What inserting one entry does: the length grows by one, order is
/// kept, the keys are the old keys and the new one, and every entry of
/// the result is the new entry or one of the old ones.
pub proof fn lemma_insert_entry_props<T>(s: Seq<(char, NodeView<T>)>, x: (char, NodeView<T>))
    ensures
        insert_entry(s, x).len() == s.len() + 1,
        keys_sorted_weak(s) ==> keys_sorted_weak(insert_entry(s, x)),
        keys_sorted(s) && !key_in(s, x.0) ==> keys_sorted(insert_entry(s, x)),
        forall|c: char| #[trigger] key_in(insert_entry(s, x), c) ==> key_in(s, c) || c == x.0,
        forall|c: char| #[trigger] key_in(s, c) ==> key_in(insert_entry(s, x), c),
        key_in(insert_entry(s, x), x.0),
        forall|k: int|
            0 <= k < insert_entry(s, x).len() ==> (#[trigger] insert_entry(s, x)[k]) == x
                || exists|j: int| 0 <= j < s.len() && insert_entry(s, x)[k] == s[j],
    decreases s.len(),
{
    let r = insert_entry(s, x);
    if s.len() == 0 {
        assert(r =~= seq![x]);
        assert forall|c: char| #[trigger] key_in(r, c) implies key_in(s, c) || c == x.0 by {
            let i = choose|i: int| 0 <= i < r.len() && (#[trigger] r[i]).0 == c;
        }
        assert forall|c: char| #[trigger] key_in(s, c) implies key_in(r, c) by {
            let i = choose|i: int| 0 <= i < s.len() && (#[trigger] s[i]).0 == c;
        }
        assert(r[0].0 == x.0);
        assert(key_in(r, x.0));
    } else if x.0 < s.last().0 {
        lemma_insert_entry_props(s.drop_last(), x);
        let dl = s.drop_last();
        let base = insert_entry(dl, x);
        assert(r == base.push(s.last()));
        assert(forall|j: int| 0 <= j < dl.len() ==> (#[trigger] dl[j]) == s[j]);
        assert forall|c: char| #[trigger] key_in(r, c) implies key_in(s, c) || c == x.0 by {
            let i = choose|i: int| 0 <= i < r.len() && (#[trigger] r[i]).0 == c;
            if i < base.len() {
                assert(base[i].0 == c);
                assert(key_in(base, c));
                if key_in(dl, c) {
                    let j = choose|j: int| 0 <= j < dl.len() && (#[trigger] dl[j]).0 == c;
                    assert(s[j].0 == c);
                    assert(key_in(s, c));
                }
            } else {
                assert(s[s.len() - 1].0 == c);
                assert(key_in(s, c));
            }
        }
        assert forall|c: char| #[trigger] key_in(s, c) implies key_in(r, c) by {
            let i = choose|i: int| 0 <= i < s.len() && (#[trigger] s[i]).0 == c;
            if i < s.len() - 1 {
                assert(dl[i].0 == c);
                assert(key_in(dl, c));
                assert(key_in(base, c));
                let j = choose|j: int| 0 <= j < base.len() && (#[trigger] base[j]).0 == c;
                assert(r[j].0 == c);
                assert(key_in(r, c));
            } else {
                assert(r[r.len() - 1].0 == c);
                assert(key_in(r, c));
            }
        }
        assert(key_in(r, x.0)) by {
            assert(key_in(base, x.0));
            let j = choose|j: int| 0 <= j < base.len() && (#[trigger] base[j]).0 == x.0;
            assert(r[j].0 == x.0);
        }
        assert forall|k: int| 0 <= k < r.len() implies (#[trigger] r[k]) == x || exists|j: int|
            0 <= j < s.len() && r[k] == s[j] by {
            if k < base.len() {
                if base[k] != x {
                    let j = choose|j: int| 0 <= j < dl.len() && base[k] == dl[j];
                    assert(r[k] == s[j]);
                }
            } else {
                assert(r[k] == s[s.len() - 1]);
            }
        }
        if keys_sorted_weak(s) {
            assert(keys_sorted_weak(dl));
            assert forall|i: int, j: int| 0 <= i < j < r.len() implies (#[trigger] r[i]).0 <= (
            #[trigger] r[j]).0 by {
                if j == r.len() - 1 {
                    assert(r[j] == s.last());
                    if r[i] == x {
                    } else {
                        let w = choose|w: int| 0 <= w < dl.len() && r[i] == dl[w];
                        assert(s[w].0 <= s[s.len() - 1].0);
                    }
                }
            }
        }
        if keys_sorted(s) && !key_in(s, x.0) {
            assert(keys_sorted(dl));
            assert(!key_in(dl, x.0)) by {
                if key_in(dl, x.0) {
                    let i = choose|i: int| 0 <= i < dl.len() && (#[trigger] dl[i]).0 == x.0;
                    assert(s[i].0 == x.0);
                    assert(key_in(s, x.0));
                }
            }
            assert forall|i: int, j: int| 0 <= i < j < r.len() implies (#[trigger] r[i]).0 < (
            #[trigger] r[j]).0 by {
                if j == r.len() - 1 {
                    assert(r[j] == s.last());
                    if r[i] == x {
                    } else {
                        let w = choose|w: int| 0 <= w < dl.len() && r[i] == dl[w];
                        assert(s[w].0 < s[s.len() - 1].0);
                    }
                }
            }
        }
    } else {
        assert(r == s.push(x));
        assert forall|c: char| #[trigger] key_in(r, c) implies key_in(s, c) || c == x.0 by {
            let i = choose|i: int| 0 <= i < r.len() && (#[trigger] r[i]).0 == c;
            if i < s.len() {
                assert(s[i].0 == c);
                assert(key_in(s, c));
            }
        }
        assert forall|c: char| #[trigger] key_in(s, c) implies key_in(r, c) by {
            let i = choose|i: int| 0 <= i < s.len() && (#[trigger] s[i]).0 == c;
            assert(r[i].0 == c);
            assert(key_in(r, c));
        }
        assert(r[r.len() - 1].0 == x.0);
        assert(key_in(r, x.0));
        if keys_sorted_weak(s) {
            assert forall|i: int, j: int| 0 <= i < j < r.len() implies (#[trigger] r[i]).0 <= (
            #[trigger] r[j]).0 by {
                if j == r.len() - 1 && i < s.len() - 1 {
                    assert(s[i].0 <= s[s.len() - 1].0);
                }
            }
        }
        if keys_sorted(s) && !key_in(s, x.0) {
            assert forall|i: int, j: int| 0 <= i < j < r.len() implies (#[trigger] r[i]).0 < (
            #[trigger] r[j]).0 by {
                if j == r.len() - 1 {
                    assert(!(x.0 < s[s.len() - 1].0));
                    assert(s[i].0 != x.0) by {
                        if s[i].0 == x.0 {
                            assert(key_in(s, x.0));
                        }
                    }
                    if i < s.len() - 1 {
                        assert(s[i].0 < s[s.len() - 1].0);
                    }
                }
            }
        }
    }
}

/// What sorting an edge sequence does: same length, keys ordered
/// (strictly, where they were unique), the same key set, and every
/// entry of the result one of the old entries.
pub proof fn lemma_sort_entries_props<T>(s: Seq<(char, NodeView<T>)>)
    ensures
        sort_entries(s).len() == s.len(),
        keys_sorted_weak(sort_entries(s)),
        (forall|i: int, j: int|
            0 <= i < j < s.len() ==> (#[trigger] s[i]).0 != (#[trigger] s[j]).0) ==> keys_sorted(
            sort_entries(s),
        ),
        forall|c: char| #[trigger] key_in(sort_entries(s), c) ==> key_in(s, c),
        forall|c: char| #[trigger] key_in(s, c) ==> key_in(sort_entries(s), c),
        forall|k: int|
            0 <= k < sort_entries(s).len() ==> exists|j: int|
                0 <= j < s.len() && (#[trigger] sort_entries(s)[k]) == s[j],
    decreases s.len(),
{
    let r = sort_entries(s);
    if s.len() == 0 {
        assert forall|c: char| #[trigger] key_in(r, c) implies key_in(s, c) by {
            let i = choose|i: int| 0 <= i < r.len() && (#[trigger] r[i]).0 == c;
        }
        assert forall|c: char| #[trigger] key_in(s, c) implies key_in(r, c) by {
            let i = choose|i: int| 0 <= i < s.len() && (#[trigger] s[i]).0 == c;
        }
    } else {
        let dl = s.drop_last();
        let sdl = sort_entries(dl);
        lemma_sort_entries_props(dl);
        lemma_insert_entry_props(sdl, s.last());
        assert(r == insert_entry(sdl, s.last()));
        assert(forall|j: int| 0 <= j < dl.len() ==> (#[trigger] dl[j]) == s[j]);
        assert forall|c: char| #[trigger] key_in(r, c) implies key_in(s, c) by {
            if key_in(sdl, c) {
                assert(key_in(dl, c));
                let i = choose|i: int| 0 <= i < dl.len() && (#[trigger] dl[i]).0 == c;
                assert(s[i].0 == c);
            } else {
                assert(c == s.last().0);
                assert(s[s.len() - 1].0 == c);
            }
            assert(key_in(s, c));
        }
        assert forall|c: char| #[trigger] key_in(s, c) implies key_in(r, c) by {
            let i = choose|i: int| 0 <= i < s.len() && (#[trigger] s[i]).0 == c;
            if i < s.len() - 1 {
                assert(dl[i].0 == c);
                assert(key_in(dl, c));
                assert(key_in(sdl, c));
            } else {
                assert(c == s.last().0);
            }
            assert(key_in(r, c));
        }
        if forall|i: int, j: int|
            0 <= i < j < s.len() ==> (#[trigger] s[i]).0 != (#[trigger] s[j]).0 {
            assert forall|i: int, j: int| 0 <= i < j < dl.len() implies (#[trigger] dl[i]).0 != (
            #[trigger] dl[j]).0 by {
                assert(s[i].0 != s[j].0);
            }
            assert(keys_sorted(sdl));
            assert(!key_in(sdl, s.last().0)) by {
                if key_in(dl, s.last().0) {
                    let i = choose|i: int| 0 <= i < dl.len() && (#[trigger] dl[i]).0 == s.last().0;
                    assert(s[i].0 == s[s.len() - 1].0);
                }
            }
            assert(keys_sorted(r));
        }
        assert forall|k: int| 0 <= k < r.len() implies exists|j: int|
            0 <= j < s.len() && (#[trigger] r[k]) == s[j] by {
            if r[k] == s.last() {
                assert(r[k] == s[s.len() - 1]);
            } else {
                let w = choose|w: int| 0 <= w < sdl.len() && r[k] == sdl[w];
                let j = choose|j: int| 0 <= j < dl.len() && sdl[w] == dl[j];
                assert(r[k] == s[j]);
            }
        }
    }
}

/// Sorting a sequence whose keys are already in order leaves it as it
/// stands; in particular sorting is idempotent.
pub proof fn lemma_sort_entries_of_sorted<T>(s: Seq<(char, NodeView<T>)>)
    requires
        keys_sorted_weak(s),
    ensures
        sort_entries(s) == s,
    decreases s.len(),
{
    if s.len() > 0 {
        let dl = s.drop_last();
        assert(keys_sorted_weak(dl)) by {
            assert(forall|j: int| 0 <= j < dl.len() ==> (#[trigger] dl[j]) == s[j]);
        }
        lemma_sort_entries_of_sorted(dl);
        if dl.len() == 0 {
            assert(insert_entry(dl, s.last()) =~= s);
        } else {
            assert(s[dl.len() - 1].0 <= s[s.len() - 1].0);
            assert(!(s.last().0 < dl.last().0));
            assert(dl.push(s.last()) =~= s);
        }
    } else {
        assert(sort_entries(s) =~= s);
    }
}

/// The sum of a sequence of counts.
pub open spec fn sum_nat(s: Seq<nat>) -> nat
    decreases s.len(),
{
    if s.len() == 0 {
        0
    } else {
        s[0] + sum_nat(s.drop_first())
    }
}

/// The paths among `ps` whose output value is `t`, in order.
pub open spec fn value_paths<T>(ps: Seq<(Seq<char>, T)>, t: T) -> Seq<Seq<char>>
    decreases ps.len(),
{
    if ps.len() == 0 {
        Seq::empty()
    } else {
        value_paths(ps.drop_last(), t) + (if ps.last().1 == t {
            seq![ps.last().0]
        } else {
            Seq::empty()
        })
    }
}

/// One grouping step: the paths of value `t` among the first `p + 1`
/// pairs are those among the first `p`, and pair `p`'s path if its
/// value is `t`.
pub proof fn lemma_value_paths_step<T>(ps: Seq<(Seq<char>, T)>, p: int, t: T)
    requires
        0 <= p < ps.len(),
    ensures
        value_paths(ps.take(p + 1), t) == value_paths(ps.take(p), t) + (if ps[p].1 == t {
            seq![ps[p].0]
        } else {
            Seq::empty()
        }),
{
    assert(ps.take(p + 1).drop_last() =~= ps.take(p));
    assert(ps.take(p + 1).last() == ps[p]);
}

/// Strict lexicographic order on character sequences: a proper prefix
/// comes before its extensions.
pub open spec fn lex_lt(a: Seq<char>, b: Seq<char>) -> bool
    decreases a.len(),
{
    b.len() > 0 && (a.len() == 0 || a[0] < b[0] || (a[0] == b[0] && lex_lt(
        a.skip(1),
        b.skip(1),
    )))
}

/// Nothing comes lexicographically before itself.
pub proof fn lemma_lex_irrefl(a: Seq<char>)
    ensures
        !lex_lt(a, a),
    decreases a.len(),
{
    if a.len() > 0 {
        lemma_lex_irrefl(a.skip(1));
    }
}

/// Prepending one shared character keeps the lexicographic order.
pub proof fn lemma_lex_prefix_char(c: char, p: Seq<char>, q: Seq<char>)
    ensures
        lex_lt(seq![c] + p, seq![c] + q) <==> lex_lt(p, q),
{
    assert((seq![c] + p).skip(1) =~= p);
    assert((seq![c] + q).skip(1) =~= q);
}

/// Prepends the edge label `c` to every path of `ps`.
pub open spec fn prefix_paths<T>(c: char, ps: Seq<(Seq<char>, T)>) -> Seq<(Seq<char>, T)> {
    ps.map(|i: int, pr: (Seq<char>, T)| (seq![c] + pr.0, pr.1))
}

/// In a sorted tree the enumerated paths are strictly increasing
/// lexicographically; in particular no two accepting paths spell the
/// same string.
pub proof fn lemma_paths_lex_sorted<T>(n: NodeView<T>)
    requires
        n.sorted(),
    ensures
        forall|k: int, l: int|
            0 <= k < l < n.paths().len() ==> lex_lt(
                (#[trigger] n.paths()[k]).0,
                (#[trigger] n.paths()[l]).0,
            ),
    decreases n,
{
    match n.edges {
        None => {},
        Some(es) => {
            assert(n.edge_seq() == es);
            assert forall|i: int, j: int|
                0 <= i < j < es.len() implies (#[trigger] es[i]).0 < (#[trigger] es[j]).0 by {
                assert(n.edge_seq()[i] == es[i]);
                assert(n.edge_seq()[j] == es[j]);
            }
            assert forall|j: int| 0 <= j < es.len() implies (#[trigger] es[j]).1.sorted() by {
                assert(n.edge_seq()[j] == es[j]);
            }
            lemma_entries_paths_lex_sorted(es);
            let ps = paths_of_entries(es);
            assert forall|k: int, l: int| 0 <= k < l < n.paths().len() implies lex_lt(
                (#[trigger] n.paths()[k]).0,
                (#[trigger] n.paths()[l]).0,
            ) by {
                let own_len: int = if n.output is Some {
                    1
                } else {
                    0
                };
                if k >= own_len {
                    assert(n.paths()[k] == ps[k - own_len]);
                    assert(n.paths()[l] == ps[l - own_len]);
                } else {
                    assert(n.paths()[k].0 =~= Seq::<char>::empty());
                    assert(n.paths()[l] == ps[l - own_len]);
                    assert(ps[l - own_len].0.len() > 0);
                }
            }
        },
    }
}

/// The paths behind a key-sorted edge sequence are strictly increasing
/// lexicographically, every one of them non-empty and starting with the
/// key of the edge it belongs to.
pub proof fn lemma_entries_paths_lex_sorted<T>(es: Seq<(char, NodeView<T>)>)
    requires
        forall|i: int, j: int|
            0 <= i < j < es.len() ==> (#[trigger] es[i]).0 < (#[trigger] es[j]).0,
        forall|j: int| 0 <= j < es.len() ==> (#[trigger] es[j]).1.sorted(),
    ensures
        forall|k: int|
            0 <= k < paths_of_entries(es).len() ==> (#[trigger] paths_of_entries(es)[k]).0.len()
                > 0,
        forall|k: int|
            0 <= k < paths_of_entries(es).len() ==> exists|i: int|
                0 <= i < es.len() && (#[trigger] paths_of_entries(es)[k]).0[0] == es[i].0,
        forall|k: int, l: int|
            0 <= k < l < paths_of_entries(es).len() ==> lex_lt(
                (#[trigger] paths_of_entries(es)[k]).0,
                (#[trigger] paths_of_entries(es)[l]).0,
            ),
    decreases es,
{
    if es.len() > 0 {
        let dl = es.drop_last();
        let last = es.last();
        assert(forall|i: int, j: int|
            0 <= i < j < dl.len() ==> (#[trigger] dl[i]).0 < (#[trigger] dl[j]).0);
        assert(forall|j: int| 0 <= j < dl.len() ==> (#[trigger] dl[j]).1.sorted());
        lemma_entries_paths_lex_sorted(dl);
        lemma_paths_lex_sorted(last.1);
        let front = paths_of_entries(dl);
        let back = prefix_paths(last.0, last.1.paths());
        assert(paths_of_entries(es) == front + back);
        assert(forall|k: int|
            0 <= k < back.len() ==> (#[trigger] back[k]) == (
                seq![last.0] + last.1.paths()[k].0,
                last.1.paths()[k].1,
            ));
        assert(forall|k: int| 0 <= k < back.len() ==> (#[trigger] back[k]).0[0] == last.0);
        assert forall|k: int, l: int|
            0 <= k < l < paths_of_entries(es).len() implies lex_lt(
            (#[trigger] paths_of_entries(es)[k]).0,
            (#[trigger] paths_of_entries(es)[l]).0,
        ) by {
            if k < front.len() && l >= front.len() {
                let a = front[k].0;
                let b = back[l - front.len()].0;
                let i = choose|i: int| 0 <= i < dl.len() && a[0] == dl[i].0;
                assert(es[i] == dl[i]);
                assert(es[i].0 < last.0);
                assert(a[0] < b[0]);
            } else if k >= front.len() {
                let kp = last.1.paths()[k - front.len()].0;
                let lp = last.1.paths()[l - front.len()].0;
                lemma_lex_prefix_char(last.0, kp, lp);
            }
        }
        assert forall|k: int|
            0 <= k < paths_of_entries(es).len() implies exists|i: int|
            0 <= i < es.len() && (#[trigger] paths_of_entries(es)[k]).0[0] == es[i].0 by {
            if k < front.len() {
                let i = choose|i: int| 0 <= i < dl.len() && front[k].0[0] == dl[i].0;
                assert(es[i] == dl[i]);
                assert(paths_of_entries(es)[k].0[0] == es[i].0);
            } else {
                assert(paths_of_entries(es)[k].0[0] == es[es.len() - 1].0);
            }
        }
    }
}

} // verus!
