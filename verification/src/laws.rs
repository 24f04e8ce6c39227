//! The laws of the library: what holds of every tree that the
//! constructor builds, of every tokenization, and of normalization
//! itself, each stated and proved once and for all.

use vstd::prelude::*;

use crate::model::NodeView;
use crate::model::key_in;
use crate::model::keys_sorted;
use crate::model::keys_sorted_weak;
use crate::model::lemma_normalize_entries;
use crate::model::lemma_sort_entries_of_sorted;
use crate::model::lemma_sort_entries_props;
use crate::model::normalize_entries;
use crate::model::sort_entries;
use crate::model::sum_nat;
use crate::model::value_paths;

verus! {

/// Normalization orders every node's transitions: whatever tree is
/// given, after `sort` every transition sequence is non-decreasing in
/// its keys.
pub proof fn lemma_normalized_sorted_weak<T>(n: NodeView<T>)
    ensures
        n.normalized().sorted_weak(),
    decreases n,
{
    match n.edges {
        None => {},
        Some(es) => {
            let ne = normalize_entries(es);
            let se = sort_entries(ne);
            lemma_normalize_entries(es);
            lemma_sort_entries_props(ne);
            let m = n.normalized();
            assert(m.edge_seq() == se);
            assert forall|i: int, j: int| 0 <= i <= j < m.edge_seq().len() implies {
                &&& i < j ==> (#[trigger] m.edge_seq()[i]).0 <= (#[trigger] m.edge_seq()[j]).0
                &&& m.edge_seq()[j].1.sorted_weak()
            } by {
                let w = choose|w: int| 0 <= w < ne.len() && (#[trigger] se[j]) == ne[w];
                assert(ne[w] == (es[w].0, es[w].1.normalized()));
                assert(decreases_to!(es => es[w]));
                lemma_normalized_sorted_weak(es[w].1);
            }
        },
    }
}

/// Where the given keys are unique at every node, normalization orders
/// them strictly: the structural invariant that construction
/// establishes, sorted transitions with unique keys throughout.
pub proof fn lemma_normalized_sorted<T>(n: NodeView<T>)
    requires
        n.keys_unique(),
    ensures
        n.normalized().sorted(),
    decreases n,
{
    match n.edges {
        None => {},
        Some(es) => {
            let ne = normalize_entries(es);
            let se = sort_entries(ne);
            lemma_normalize_entries(es);
            lemma_sort_entries_props(ne);
            let m = n.normalized();
            assert(m.edge_seq() == se);
            assert(n.edge_seq() == es);
            assert forall|i: int, j: int| 0 <= i < j < ne.len() implies (#[trigger] ne[i]).0 != (
            #[trigger] ne[j]).0 by {
                assert(n.edge_seq()[i] == es[i]);
                assert(n.edge_seq()[j] == es[j]);
            }
            assert(keys_sorted(se));
            assert forall|i: int, j: int| 0 <= i <= j < m.edge_seq().len() implies {
                &&& i < j ==> (#[trigger] m.edge_seq()[i]).0 < (#[trigger] m.edge_seq()[j]).0
                &&& m.edge_seq()[j].1.sorted()
            } by {
                let w = choose|w: int| 0 <= w < ne.len() && (#[trigger] se[j]) == ne[w];
                assert(ne[w] == (es[w].0, es[w].1.normalized()));
                assert(n.edge_seq()[w] == es[w]);
                assert(es[w].1.keys_unique());
                assert(decreases_to!(es => es[w]));
                lemma_normalized_sorted(es[w].1);
            }
        },
    }
}

/// Normalization never breaks the constructors' shape: where every
/// dead-end node carried an output before sorting, every one does
/// after.
pub proof fn lemma_normalized_leaves_accept<T>(n: NodeView<T>)
    requires
        n.leaves_accept(),
    ensures
        n.normalized().leaves_accept(),
    decreases n,
{
    match n.edges {
        None => {},
        Some(es) => {
            let ne = normalize_entries(es);
            let se = sort_entries(ne);
            lemma_normalize_entries(es);
            lemma_sort_entries_props(ne);
            let m = n.normalized();
            assert(m.edge_seq() == se);
            assert(n.edge_seq() == es);
            assert forall|j: int|
                0 <= j < m.edge_seq().len() implies (#[trigger] m.edge_seq()[j]).1.leaves_accept()
                by {
                let w = choose|w: int| 0 <= w < ne.len() && (#[trigger] se[j]) == ne[w];
                assert(ne[w] == (es[w].0, es[w].1.normalized()));
                assert(n.edge_seq()[w] == es[w]);
                assert(es[w].1.leaves_accept());
                assert(decreases_to!(es => es[w]));
                lemma_normalized_leaves_accept(es[w].1);
            }
        },
    }
}

/// Sorting is idempotent: normalizing a tree a second time changes
/// nothing, so a tree sorted twice is identical to one sorted once.
pub proof fn lemma_normalized_idempotent<T>(n: NodeView<T>)
    ensures
        n.normalized().normalized() == n.normalized(),
    decreases n,
{
    match n.edges {
        None => {
            assert(n.normalized().normalized() =~= n.normalized());
        },
        Some(es) => {
            let ne = normalize_entries(es);
            let se = sort_entries(ne);
            let m = n.normalized();
            lemma_normalize_entries(es);
            lemma_sort_entries_props(ne);
            lemma_normalize_entries(se);
            assert forall|k: int| 0 <= k < se.len() implies (#[trigger] normalize_entries(se)[k])
                == se[k] by {
                let w = choose|w: int| 0 <= w < ne.len() && (#[trigger] se[k]) == ne[w];
                assert(ne[w] == (es[w].0, es[w].1.normalized()));
                assert(decreases_to!(es => es[w]));
                lemma_normalized_idempotent(es[w].1);
                assert(se[k].1.normalized() == se[k].1);
            }
            assert(normalize_entries(se) =~= se);
            lemma_sort_entries_of_sorted(se);
            assert(m.normalized() =~= m);
        },
    }
}

/// The two path enumerations are inverse views of one underlying set:
/// a path stands among the paths grouped under a value exactly when the
/// pair of the two stands among the enumerated (path, value) pairs.
pub proof fn lemma_value_paths_contains<T>(ps: Seq<(Seq<char>, T)>, t: T, p: Seq<char>)
    ensures
        value_paths(ps, t).contains(p) <==> ps.contains((p, t)),
    decreases ps.len(),
{
    if ps.len() > 0 {
        let dl = ps.drop_last();
        lemma_value_paths_contains(dl, t, p);
        if value_paths(ps, t).contains(p) {
            let i = choose|i: int| 0 <= i < value_paths(ps, t).len() && value_paths(ps, t)[i]
                == p;
            if i < value_paths(dl, t).len() {
                assert(value_paths(dl, t).contains(p));
                let j = choose|j: int| 0 <= j < dl.len() && dl[j] == (p, t);
                assert(ps[j] == (p, t));
                assert(ps.contains((p, t)));
            } else {
                assert(ps.last() == (p, t));
                assert(ps[ps.len() - 1] == (p, t));
                assert(ps.contains((p, t)));
            }
        }
        if ps.contains((p, t)) {
            let j = choose|j: int| 0 <= j < ps.len() && ps[j] == (p, t);
            if j < ps.len() - 1 {
                assert(dl[j] == (p, t));
                assert(dl.contains((p, t)));
                let i = choose|i: int|
                    0 <= i < value_paths(dl, t).len() && value_paths(dl, t)[i] == p;
                assert(value_paths(ps, t)[i] == p);
                assert(value_paths(ps, t).contains(p));
            } else {
                assert(ps.last() == (p, t));
                let w = value_paths(ps, t).len() - 1;
                assert(value_paths(ps, t)[w] == p);
                assert(value_paths(ps, t).contains(p));
            }
        }
    } else {
        if ps.contains((p, t)) {
            let j = choose|j: int| 0 <= j < ps.len() && ps[j] == (p, t);
        }
        if value_paths(ps, t).contains(p) {
            let i = choose|i: int| 0 <= i < value_paths(ps, t).len() && value_paths(ps, t)[i]
                == p;
        }
    }
}

/// Inline-error extraction always terminates with a bounded result:
/// every step moves forward by at least one character, so the output
/// holds at most one element per remaining character of input.
pub proof fn lemma_infallible_extraction_bounded<T>(n: NodeView<T>, cs: Seq<char>, pos: nat)
    requires
        pos <= cs.len(),
    ensures
        n.extract_infallible_from(cs, pos).len() <= cs.len() - pos,
    decreases cs.len() - pos,
{
    if pos < cs.len() {
        n.lemma_walk_len_bound(cs.skip(pos as int));
        lemma_infallible_extraction_bounded(n, cs, pos + n.step_advance(cs, pos));
    }
}

/// Fail-fast extraction accounts for the whole input: where it
/// succeeds, the per-call consumed counts sum to exactly the number of
/// characters from `pos` to the end, one count per token returned.
pub proof fn lemma_consumed_counts_cover_input<T>(n: NodeView<T>, cs: Seq<char>, pos: nat)
    requires
        pos <= cs.len(),
        n.extract_from(cs, pos) is Ok,
    ensures
        sum_nat(n.consumed_counts(cs, pos)) == cs.len() - pos,
        n.consumed_counts(cs, pos).len() == n.extract_from(cs, pos)->Ok_0.len(),
    decreases cs.len() - pos,
{
    if pos < cs.len() {
        n.lemma_walk_len_bound(cs.skip(pos as int));
        let adv = n.step_advance(cs, pos);
        lemma_consumed_counts_cover_input(n, cs, pos + adv);
        let counts = n.consumed_counts(cs, pos);
        assert(counts == seq![adv] + n.consumed_counts(cs, pos + adv));
        assert(counts.drop_first() =~= n.consumed_counts(cs, pos + adv));
        assert(counts[0] == adv);
    }
}

} // verus!
