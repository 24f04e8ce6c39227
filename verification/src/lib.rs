//! A character-by-character token-matching engine built on a prefix
//! tree: given a fixed set of string-to-token mappings, it tokenizes
//! input text by greedily following the longest available transition
//! path and emitting the output value found at the node where the walk
//! stops.

use vstd::prelude::*;

pub mod error;
pub mod laws;
pub mod model;

use crate::error::TransitionError;
use crate::error::push_char;
use crate::model::NodeView;
use crate::model::TokenView;
use crate::model::normalize_entries;
use crate::model::sort_entries;
use crate::model::lemma_normalize_entries;
use crate::model::lemma_insert_entry_at;
use crate::model::lemma_sort_entries_step;
use crate::model::paths_of_entries;
use crate::model::prefix_paths;
use crate::model::prepend_all;
use crate::model::lemma_prepend_all_empty;
use crate::model::lemma_prepend_all_step;
use crate::model::lemma_prepend_all_add;
use crate::model::lemma_paths_of_entries_step;
use crate::model::lemma_paths_of_entries_take_len;
use crate::model::lemma_paths_lex_sorted;
use crate::model::lemma_lex_irrefl;
use crate::model::cmp_lawful;
use crate::model::value_paths;
use crate::model::lemma_value_paths_step;
use core::cmp::Ordering;
use vstd::std_specs::cmp::OrdSpec;
use vstd::string::StrSliceExecFns;
use vstd::slice::slice_subrange;
use vstd::slice::slice_index_get;

verus! {

/// One element of the inline-error extraction's output: a token value,
/// or the record of a failed match attempt standing in its place.
#[derive(Debug, PartialEq)]
pub enum Token<T> {
    Token(T),
    Error(TransitionError),
}

impl<T> View for Token<T> {
    type V = TokenView<T>;

    open spec fn view(&self) -> TokenView<T> {
        match self {
            Token::Token(t) => TokenView::Token(*t),
            Token::Error(e) => TokenView::Error(e@),
        }
    }
}

/// A trie node: optionally an output value, optionally a sorted
/// sequence of outgoing character transitions to child nodes.
#[derive(Debug)]
pub struct Node<T: Copy> {
    pub output: Option<T>,
    pub transitions: Option<Vec<(char, Node<T>)>>,
}

impl<T: Copy> View for Node<T> {
    type V = NodeView<T>;

    open spec fn view(&self) -> NodeView<T>
        decreases self,
    {
        NodeView {
            output: self.output,
            edges: match self.transitions {
                Some(ts) => Some(entries_view(ts@)),
                None => None,
            },
        }
    }
}

impl<T: Copy> Clone for Node<T> {
    /// A deep copy whose model is identical to the original's.
    #[verifier::loop_isolation(false)]
    fn clone(&self) -> (r: Self)
        ensures
            r@ == self@,
        decreases *self,
    {
        match &self.transitions {
            None => Node { output: self.output, transitions: None },
            Some(t) => {
                proof {
                    lemma_node_view(*self);
                }
                let mut copies: Vec<(char, Node<T>)> = Vec::new();
                let n = t.len();
                let mut i: usize = 0;
                while i < n
                    invariant
                        i <= n,
                        copies@.len() == i,
                        forall|j: int|
                            0 <= j < i ==> (#[trigger] copies@[j]).0 == t@[j].0 && copies@[j].1@
                                == t@[j].1@,
                    decreases n - i,
                {
                    let entry = &t[i];
                    proof {
                        let tvec = self.transitions->Some_0;
                        assert(decreases_to!(tvec => tvec@));
                        assert(decreases_to!(tvec@ => tvec@[i as int]));
                        assert(decreases_to!(tvec@[i as int] => tvec@[i as int].1));
                        assert(decreases_to!(*self => t@[i as int].1));
                    }
                    let child = entry.1.clone();
                    copies.push((entry.0, child));
                    i = i + 1;
                }
                let out = Node { output: self.output, transitions: Some(copies) };
                proof {
                    lemma_node_view(out);
                    lemma_entries_view(copies@);
                    lemma_entries_view(t@);
                    assert(entries_view(copies@) =~= entries_view(t@));
                }
                out
            },
        }
    }
}

/// The model of a transition vector: each entry's node replaced by its
/// view.
pub open spec fn entries_view<T: Copy>(ts: Seq<(char, Node<T>)>) -> Seq<(char, NodeView<T>)>
    decreases ts,
{
    if ts.len() == 0 {
        Seq::empty()
    } else {
        entries_view(ts.drop_last()).push((ts.last().0, ts.last().1@))
    }
}

/// Each entry of a transition vector's model is the entry of the
/// vector, the node replaced by its view.
pub proof fn lemma_entries_view<T: Copy>(ts: Seq<(char, Node<T>)>)
    ensures
        entries_view(ts).len() == ts.len(),
        forall|k: int|
            0 <= k < ts.len() ==> (#[trigger] entries_view(ts)[k]) == (ts[k].0, ts[k].1@),
    decreases ts.len(),
{
    if ts.len() > 0 {
        lemma_entries_view(ts.drop_last());
        let base = entries_view(ts.drop_last());
        assert(entries_view(ts) == base.push((ts.last().0, ts.last().1@)));
        assert forall|k: int| 0 <= k < ts.len() implies (#[trigger] entries_view(ts)[k]) == (
            ts[k].0,
            ts[k].1@,
        ) by {
            if k < ts.len() - 1 {
                assert(entries_view(ts)[k] == base[k]);
                assert(ts.drop_last()[k] == ts[k]);
            } else {
                assert(entries_view(ts)[k] == (ts.last().0, ts.last().1@));
            }
        }
    }
}

/// How a branch node's view relates to its transition vector.
pub proof fn lemma_node_view<T: Copy>(n: Node<T>)
    requires
        n.transitions is Some,
    ensures
        n@.edges is Some,
        n@.edges->Some_0 == entries_view(n.transitions->Some_0@),
        n@.edge_seq().len() == n.transitions->Some_0@.len(),
        forall|k: int|
            0 <= k < n.transitions->Some_0@.len() ==> (#[trigger] n@.edge_seq()[k]) == (
                n.transitions->Some_0@[k].0,
                n.transitions->Some_0@[k].1@,
            ),
{
    lemma_entries_view(n.transitions->Some_0@);
}

/// The model of an extraction output vector: each element replaced by
/// its view.
pub open spec fn tokens_view<T: Copy>(s: Seq<Token<T>>) -> Seq<TokenView<T>>
    decreases s.len(),
{
    if s.len() == 0 {
        Seq::empty()
    } else {
        tokens_view(s.drop_last()).push(s.last()@)
    }
}

/// An extraction output vector and its model hold the same number of
/// elements.
pub proof fn lemma_tokens_view_len<T: Copy>(s: Seq<Token<T>>)
    ensures
        tokens_view(s).len() == s.len(),
    decreases s.len(),
{
    if s.len() > 0 {
        lemma_tokens_view_len(s.drop_last());
    }
}

impl<T: Copy> Node<T> {
    /// Construct a leaf node: it carries an output and has no
    /// transitions.
    pub fn leaf(c: char, output: T) -> (r: (char, Node<T>))
        ensures
            r.0 == c,
            r.1@ == (NodeView { output: Some(output), edges: None::<Seq<(char, NodeView<T>)>> }),
    {
        (
            c,
            Node { output: Some(output), transitions: None },
        )
    }

    /// Construct a branch node: it has transitions and may carry an
    /// output. A branch with no continuations is meaningless and must
    /// be a leaf instead, so empty transition vectors are ruled out.
    pub fn branch(c: char, output: Option<T>, transitions: Vec<(char, Node<T>)>) -> (r: (
        char,
        Node<T>,
    ))
        requires
            transitions@.len() > 0,
        ensures
            r.0 == c,
            r.1@ == (NodeView { output, edges: Some(entries_view(transitions@)) }),
    {
        let node = Node { output, transitions: Some(transitions) };
        proof {
            lemma_node_view(node);
        }
        (c, node)
    }

    /// Follow the transition labelled `c`, if this node has one: a
    /// binary search over the sorted transition vector; a leaf, or an
    /// absent key, has no transition.
    pub fn find_transition_node(&self, c: char) -> (r: Option<&Node<T>>)
        requires
            self@.sorted(),
        ensures
            match r {
                Some(node) => {
                    &&& self@.has_edge(c)
                    &&& node@ == self@.child(c)
                    &&& node@.sorted()
                },
                None => !self@.has_edge(c),
            },
    {
        if let Some(t) = &self.transitions {
            proof {
                lemma_node_view(*self);
            }
            let mut lo: usize = 0;
            let mut hi: usize = t.len();
            while lo < hi
                invariant
                    0 <= lo <= hi <= t@.len(),
                    self@.sorted(),
                    t@.len() == self@.edge_seq().len(),
                    forall|k: int|
                        0 <= k < t@.len() ==> (#[trigger] self@.edge_seq()[k]) == (
                            t@[k].0,
                            t@[k].1@,
                        ),
                    forall|k: int| 0 <= k < lo ==> (#[trigger] self@.edge_seq()[k]).0 < c,
                    forall|k: int| hi <= k < t@.len() ==> c < (#[trigger] self@.edge_seq()[k]).0,
                decreases hi - lo,
            {
                let mid = lo + (hi - lo) / 2;
                let entry = &t[mid];
                if entry.0 == c {
                    proof {
                        assert(self@.edge_seq()[mid as int].0 == c);
                        assert(self@.has_edge(c));
                        let w = self@.edge_index(c);
                        assert(0 <= w < self@.edge_seq().len() && self@.edge_seq()[w].0 == c);
                        assert(w == mid as int) by {
                            if w < mid as int {
                                assert(self@.edge_seq()[w].0 < self@.edge_seq()[mid as int].0);
                            }
                            if w > mid as int {
                                assert(self@.edge_seq()[mid as int].0 < self@.edge_seq()[w].0);
                            }
                        }
                        assert(self@.child(c) == self@.edge_seq()[mid as int].1);
                    }
                    return Some(&entry.1);
                } else if entry.0 < c {
                    proof {
                        assert(forall|k: int|
                            0 <= k < mid as int ==> (#[trigger] self@.edge_seq()[k]).0
                                < self@.edge_seq()[mid as int].0);
                    }
                    lo = mid + 1;
                } else {
                    proof {
                        assert(forall|k: int|
                            (mid as int) < k < t@.len() ==> self@.edge_seq()[mid as int].0 < (
                            #[trigger] self@.edge_seq()[k]).0);
                    }
                    hi = mid;
                }
            }
            proof {
                if self@.has_edge(c) {
                    let w = self@.edge_index(c);
                    assert(0 <= w < self@.edge_seq().len() && self@.edge_seq()[w].0 == c);
                }
            }
            None
        } else {
            None
        }
    }

    /// Try to get the next token from a slice of chars, whose first
    /// character stands at absolute index `idx` of the original text:
    /// walk from this node greedily, with no backtracking, as long as a
    /// transition exists, then return the output at the node reached,
    /// or an error describing where matching failed.
    pub fn get(&self, chars: &[char], idx: usize) -> (r: Result<(T, usize), TransitionError>)
        requires
            self@.sorted(),
            idx + chars@.len() <= usize::MAX,
        ensures
            self@.walk_len(chars@) <= chars@.len(),
            match r {
                Ok((t, count)) => {
                    &&& self@.walk_node(chars@).output == Some(t)
                    &&& count == self@.walk_len(chars@)
                },
                Err(e) => {
                    &&& self@.walk_node(chars@).output is None
                    &&& e@.consumed == chars@.take(self@.walk_len(chars@) as int)
                    &&& e@.character == (if self@.walk_len(chars@) < chars@.len() {
                        Some(chars@[self@.walk_len(chars@) as int])
                    } else {
                        None::<char>
                    })
                    &&& e@.start == idx
                    &&& e@.end == idx + self@.walk_len(chars@)
                },
            },
    {
        let ghost cs = chars@;
        proof {
            assert(cs.skip(0) =~= cs);
        }
        let mut i: usize = 0;
        let mut curr: &Node<T> = self;
        let mut maybe_char: Option<char> = None;
        while i < chars.len()
            invariant_except_break
                maybe_char is None,
            invariant
                i <= cs.len(),
                chars@ == cs,
                curr@.sorted(),
                self@.walk_len(cs) == i + curr@.walk_len(cs.skip(i as int)),
                self@.walk_node(cs) == curr@.walk_node(cs.skip(i as int)),
            ensures
                self@.walk_len(cs) == i,
                self@.walk_node(cs) == curr@,
                maybe_char == (if i < cs.len() {
                    Some(cs[i as int])
                } else {
                    None::<char>
                }),
            decreases cs.len() - i,
        {
            let c = *slice_index_get(chars, i);
            proof {
                assert(cs.skip(i as int)[0] == c);
            }
            match curr.find_transition_node(c) {
                Some(next) => {
                    proof {
                        assert(cs.skip(i as int).skip(1) =~= cs.skip(i as int + 1));
                    }
                    curr = next;
                    i = i + 1;
                },
                None => {
                    maybe_char = Some(c);
                    break;
                },
            }
        }
        if let Some(output) = curr.output {
            Ok((output, i))
        } else {
            let mut consumed = String::new();
            let mut j: usize = 0;
            while j < i
                invariant
                    j <= i <= cs.len(),
                    chars@ == cs,
                    consumed@ == cs.take(j as int),
                decreases i - j,
            {
                let c = *slice_index_get(chars, j);
                push_char(&mut consumed, c);
                proof {
                    assert(cs.take(j as int + 1) =~= cs.take(j as int).push(c));
                }
                j = j + 1;
            }
            Err(
                TransitionError {
                    consumed_str: consumed,
                    character: maybe_char,
                    start: idx,
                    end: idx + i,
                },
            )
        }
    }

    /// Extract tokens from the whole text. If a substring is
    /// encountered that cannot produce a token, the extraction stops
    /// and the error is reported; tokens already collected are
    /// discarded.
    pub fn extract_tokens(&self, text: &str) -> (r: Result<Vec<T>, TransitionError>)
        requires
            self@.sorted(),
            self@.output is None,
        ensures
            r matches Ok(v) ==> self@.extract_from(text@, 0) == Ok::<
                Seq<T>,
                crate::error::TransitionErrorView,
            >(v@),
            r matches Err(e) ==> self@.extract_from(text@, 0) == Err::<
                Seq<T>,
                crate::error::TransitionErrorView,
            >(e@),
    {
        let ghost cs = text@;
        let chars = chars_of(text);
        let len = chars.len();
        let mut output: Vec<T> = Vec::new();
        let mut curr_pos: usize = 0;
        while curr_pos != len
            invariant
                curr_pos <= len,
                len == cs.len(),
                chars@ == cs,
                cs == text@,
                self@.sorted(),
                self@.output is None,
                match self@.extract_from(cs, curr_pos as nat) {
                    Ok(toks) => self@.extract_from(cs, 0) == Ok::<
                        _,
                        crate::error::TransitionErrorView,
                    >(output@ + toks),
                    Err(e) => self@.extract_from(cs, 0) == Err::<Seq<T>, _>(e),
                },
            decreases len - curr_pos,
        {
            let slice = slice_subrange(chars.as_slice(), curr_pos, len);
            proof {
                assert(slice@ =~= cs.skip(curr_pos as int));
            }
            let ghost rest = cs.skip(curr_pos as int);
            let ghost k = self@.walk_len(rest);
            proof {
                self@.lemma_walk_len_bound(rest);
                if k == 0 {
                    assert(self@.walk_node(rest) == self@);
                }
            }
            match self.get(slice, curr_pos) {
                Ok(step) => {
                    let (t, count) = step;
                    let ghost old_output = output@;
                    let ghost old_pos = curr_pos as nat;
                    proof {
                        assert(k >= 1);
                        assert(self@.step_advance(cs, old_pos) == k);
                    }
                    output.push(t);
                    curr_pos = curr_pos + count;
                    proof {
                        assert(output@ =~= old_output + seq![t]);
                        assert(curr_pos as nat == old_pos + self@.step_advance(cs, old_pos));
                        match self@.extract_from(cs, curr_pos as nat) {
                            Ok(toks) => {
                                assert(self@.extract_from(cs, old_pos) == Ok::<
                                    _,
                                    crate::error::TransitionErrorView,
                                >(seq![t] + toks));
                                assert(old_output + (seq![t] + toks) =~= output@ + toks);
                            },
                            Err(_) => {
                                assert(self@.extract_from(cs, old_pos) == self@.extract_from(
                                    cs,
                                    curr_pos as nat,
                                ));
                            },
                        }
                    }
                },
                Err(e) => {
                    proof {
                        assert(e@.consumed == rest.take(k as int));
                        assert(e@.start == curr_pos as int);
                        assert(e@.end == curr_pos as int + k as int);
                        assert(self@.extract_from(cs, curr_pos as nat) == Err::<Seq<T>, _>(e@));
                    }
                    return Err(e);
                },
            }
        }
        proof {
            assert(self@.extract_from(cs, len as nat) == Ok::<_, crate::error::TransitionErrorView>(
                Seq::<T>::empty(),
            ));
            assert(output@ + Seq::<T>::empty() =~= output@);
        }
        Ok(output)
    }

    /// Extract tokens from the whole text. If a substring is
    /// encountered that cannot produce a token, the error is inserted
    /// into the output in the token's place and extraction resumes
    /// behind it, at least one character further on.
    pub fn extract_tokens_infallible(&self, text: &str) -> (r: Vec<Token<T>>)
        requires
            self@.sorted(),
            self@.output is None,
        ensures
            tokens_view(r@) == self@.extract_infallible_from(text@, 0),
            r@.len() <= text@.len(),
    {
        let ghost cs = text@;
        let chars = chars_of(text);
        let len = chars.len();
        let mut output: Vec<Token<T>> = Vec::new();
        let mut curr_pos: usize = 0;
        while curr_pos < len
            invariant
                curr_pos <= len,
                len == cs.len(),
                chars@ == cs,
                cs == text@,
                self@.sorted(),
                self@.output is None,
                self@.extract_infallible_from(cs, 0) == tokens_view(output@)
                    + self@.extract_infallible_from(cs, curr_pos as nat),
            decreases len - curr_pos,
        {
            let slice = slice_subrange(chars.as_slice(), curr_pos, len);
            proof {
                assert(slice@ =~= cs.skip(curr_pos as int));
            }
            let ghost rest = cs.skip(curr_pos as int);
            let ghost k = self@.walk_len(rest);
            let ghost old_pos = curr_pos as nat;
            let ghost old_output = output@;
            proof {
                self@.lemma_walk_len_bound(rest);
                if k == 0 {
                    assert(self@.walk_node(rest) == self@);
                }
            }
            match self.get(slice, curr_pos) {
                Ok(step) => {
                    let (t, count) = step;
                    proof {
                        assert(k >= 1);
                        assert(self@.step_advance(cs, old_pos) == k);
                    }
                    output.push(Token::Token(t));
                    curr_pos = curr_pos + count;
                    proof {
                        assert(output@.drop_last() =~= old_output);
                        assert(tokens_view(output@) == tokens_view(old_output).push(
                            TokenView::Token(t),
                        ));
                        assert(curr_pos as nat == old_pos + self@.step_advance(cs, old_pos));
                        assert(self@.extract_infallible_from(cs, old_pos) == seq![
                            TokenView::<T>::Token(t),
                        ] + self@.extract_infallible_from(cs, curr_pos as nat));
                        assert(tokens_view(old_output) + (seq![TokenView::<T>::Token(t)]
                            + self@.extract_infallible_from(cs, curr_pos as nat)) =~= tokens_view(
                            output@,
                        ) + self@.extract_infallible_from(cs, curr_pos as nat));
                    }
                },
                Err(e) => {
                    let end = e.end;
                    let ghost head = TokenView::<T>::Error(e@);
                    proof {
                        assert(e@.consumed == rest.take(k as int));
                        assert(end == curr_pos + k);
                        assert(self@.step_advance(cs, old_pos) == (if k == 0 {
                            1nat
                        } else {
                            k
                        }));
                        assert(self@.extract_infallible_from(cs, old_pos) == seq![head]
                            + self@.extract_infallible_from(
                            cs,
                            old_pos + self@.step_advance(cs, old_pos),
                        ));
                    }
                    output.push(Token::Error(e));
                    if end > curr_pos {
                        curr_pos = end;
                    } else {
                        curr_pos = curr_pos + 1;
                    }
                    proof {
                        assert(output@.drop_last() =~= old_output);
                        assert(tokens_view(output@) == tokens_view(old_output).push(head));
                        assert(curr_pos as nat == old_pos + self@.step_advance(cs, old_pos));
                        assert(tokens_view(old_output) + (seq![head]
                            + self@.extract_infallible_from(cs, curr_pos as nat)) =~= tokens_view(
                            output@,
                        ) + self@.extract_infallible_from(cs, curr_pos as nat));
                    }
                },
            }
        }
        proof {
            assert(self@.extract_infallible_from(cs, curr_pos as nat) =~= Seq::<
                TokenView<T>,
            >::empty());
            assert(tokens_view(output@) + Seq::<TokenView<T>>::empty() =~= tokens_view(output@));
            lemma_tokens_view_len(output@);
            crate::laws::lemma_infallible_extraction_bounded(self@, cs, 0);
        }
        output
    }
}

impl<T: Copy> Node<T> {
    /// This node with every transition vector, its own and every
    /// descendant's, sorted by transition character, children first.
    #[verifier::loop_isolation(false)]
    fn sorted_form(self) -> (r: Node<T>)
        ensures
            r@ == self@.normalized(),
        decreases self,
    {
        let ghost me = self;
        let Node { output, transitions } = self;
        match transitions {
            None => Node { output, transitions: None },
            Some(mut v) => {
                let ghost orig = v@;
                let ghost eorig = entries_view(orig);
                proof {
                    lemma_entries_view(orig);
                    lemma_normalize_entries(eorig);
                }
                let mut kids: Vec<(char, Node<T>)> = Vec::new();
                while v.len() > 0
                    invariant
                        kids@.len() + v@.len() == orig.len(),
                        v@ =~= orig.skip(kids@.len() as int),
                        forall|j: int|
                            0 <= j < kids@.len() ==> (#[trigger] kids@[j]).0 == orig[j].0
                                && kids@[j].1@ == orig[j].1@.normalized(),
                        me.transitions is Some,
                        orig == me.transitions->Some_0@,
                    decreases v@.len(),
                {
                    let ghost p = kids@.len() as int;
                    let entry = v.remove(0);
                    let (c, child) = entry;
                    proof {
                        assert(child == orig[p].1);
                        let tvec = me.transitions->Some_0;
                        assert(decreases_to!(me => tvec));
                        assert(decreases_to!(tvec => tvec@));
                        assert(decreases_to!(tvec@ => tvec@[p]));
                        assert(decreases_to!(tvec@[p] => tvec@[p].1));
                        assert(decreases_to!(me => child));
                    }
                    let sorted_child = child.sorted_form();
                    kids.push((c, sorted_child));
                    proof {
                        assert(v@ =~= orig.skip(p + 1));
                    }
                }
                proof {
                    lemma_entries_view(kids@);
                    assert(entries_view(kids@) =~= normalize_entries(eorig));
                }
                // entries are now each in normal form; sort them by key
                let ghost ekids = entries_view(kids@);
                let mut sorted_kids: Vec<(char, Node<T>)> = Vec::new();
                let ghost korig = kids@;
                while kids.len() > 0
                    invariant
                        sorted_kids@.len() + kids@.len() == korig.len(),
                        kids@ =~= korig.skip(sorted_kids@.len() as int),
                        entries_view(sorted_kids@) == sort_entries(
                            entries_view(korig).take(sorted_kids@.len() as int),
                        ),
                    decreases kids@.len(),
                {
                    let ghost p = sorted_kids@.len() as int;
                    proof {
                        lemma_entries_view(korig);
                        lemma_entries_view(sorted_kids@);
                    }
                    let entry = kids.remove(0);
                    let ghost x = (entry.0, entry.1@);
                    proof {
                        assert(entry == korig[p]);
                        assert(x == entries_view(korig)[p]);
                        assert(kids@ =~= korig.skip(p + 1));
                    }
                    let mut j = sorted_kids.len();
                    while j > 0 && entry.0 < sorted_kids[j - 1].0
                        invariant
                            0 <= j <= sorted_kids@.len(),
                            forall|k: int|
                                j <= k < sorted_kids@.len() ==> entry.0 < (
                                #[trigger] sorted_kids@[k]).0,
                        decreases j,
                    {
                        j = j - 1;
                    }
                    let ghost before = sorted_kids@;
                    sorted_kids.insert(j, entry);
                    proof {
                        lemma_entries_view(before);
                        lemma_entries_view(sorted_kids@);
                        lemma_insert_entry_at(entries_view(before), x, j as int);
                        assert(sorted_kids@ =~= before.take(j as int) + seq![entry] + before.skip(
                            j as int,
                        ));
                        assert(entries_view(sorted_kids@) =~= entries_view(before).take(j as int)
                            + seq![x] + entries_view(before).skip(j as int));
                        lemma_sort_entries_step(entries_view(korig), p);
                    }
                }
                proof {
                    assert(entries_view(korig).take(korig.len() as int) =~= entries_view(korig));
                    assert(entries_view(sorted_kids@) == sort_entries(normalize_entries(eorig)));
                }
                let out = Node { output, transitions: Some(sorted_kids) };
                proof {
                    lemma_node_view(out);
                    assert(out@ == me@.normalized());
                }
                out
            },
        }
    }

    /// Sorts the tree by the transition characters, recursively: the
    /// normalization that the `tree` constructor applies. An unsorted
    /// tree will not transition properly.
    pub fn sort(&mut self)
        ensures
            final(self)@ == old(self)@.normalized(),
    {
        let mut work = Node { output: None, transitions: None };
        core::mem::swap(self, &mut work);
        let done = work.sorted_form();
        *self = done;
    }

    /// Construct a whole trie from a vector of transitions: the root
    /// carries no output, and every node's transitions are sorted by
    /// character so that lookup can use binary search.
    pub fn tree(transitions: Vec<(char, Node<T>)>) -> (r: Node<T>)
        ensures
            r@ == (NodeView {
                output: None::<T>,
                edges: Some(entries_view(transitions@)),
            }).normalized(),
            r@.output is None,
            r@.sorted_weak(),
            (NodeView { output: None::<T>, edges: Some(entries_view(transitions@)) }).keys_unique()
                ==> r@.sorted(),
            (NodeView {
                output: None::<T>,
                edges: Some(entries_view(transitions@)),
            }).leaves_accept() ==> r@.leaves_accept(),
    {
        let mut tree = Node { output: None, transitions: Some(transitions) };
        proof {
            lemma_node_view(tree);
        }
        let ghost raw = tree@;
        tree.sort();
        proof {
            crate::laws::lemma_normalized_sorted_weak(raw);
            if raw.keys_unique() {
                crate::laws::lemma_normalized_sorted(raw);
            }
            if raw.leaves_accept() {
                crate::laws::lemma_normalized_leaves_accept(raw);
            }
        }
        tree
    }
}

/// The model of a path-enumeration vector: each path string replaced by
/// its character sequence.
pub open spec fn pairs_view<T: Copy>(s: Seq<(String, T)>) -> Seq<(Seq<char>, T)>
    decreases s.len(),
{
    if s.len() == 0 {
        Seq::empty()
    } else {
        pairs_view(s.drop_last()).push((s.last().0@, s.last().1))
    }
}

/// Each entry of a path-enumeration vector's model is the entry of the
/// vector, the string replaced by its characters.
pub proof fn lemma_pairs_view<T: Copy>(s: Seq<(String, T)>)
    ensures
        pairs_view(s).len() == s.len(),
        forall|k: int| 0 <= k < s.len() ==> (#[trigger] pairs_view(s)[k]) == (s[k].0@, s[k].1),
    decreases s.len(),
{
    if s.len() > 0 {
        lemma_pairs_view(s.drop_last());
        let base = pairs_view(s.drop_last());
        assert(pairs_view(s) == base.push((s.last().0@, s.last().1)));
        assert forall|k: int| 0 <= k < s.len() implies (#[trigger] pairs_view(s)[k]) == (
            s[k].0@,
            s[k].1,
        ) by {
            if k < s.len() - 1 {
                assert(pairs_view(s)[k] == base[k]);
                assert(s.drop_last()[k] == s[k]);
            }
        }
    }
}

impl<T: Copy> Node<T> {
    /// Documents every valid string and the token that it translates
    /// to, in tree order: depth-first, a node's own output before its
    /// children's.
    pub fn input_paths(&self) -> (r: Vec<(String, T)>)
        ensures
            pairs_view(r@) == self@.paths(),
    {
        let mut paths: Vec<(String, T)> = Vec::new();
        self.input_paths_inner(Vec::new(), &mut paths);
        proof {
            lemma_prepend_all_empty(self@.paths());
            assert(pairs_view(paths@) =~= Seq::<(Seq<char>, T)>::empty() + prepend_all(
                Seq::<char>::empty(),
                self@.paths(),
            ));
        }
        paths
    }

    /// Appends to `paths` every (string, output) pair reachable from
    /// this node, each string behind the prefix `chars`, in tree order.
    #[verifier::loop_isolation(false)]
    fn input_paths_inner(&self, chars: Vec<char>, paths: &mut Vec<(String, T)>)
        ensures
            pairs_view(final(paths)@) == pairs_view(old(paths)@) + prepend_all(
                chars@,
                self@.paths(),
            ),
        decreases *self,
    {
        let ghost base = paths@;
        let ghost own = (match self@.output {
            Some(t) => seq![(Seq::<char>::empty(), t)],
            None => Seq::<(Seq<char>, T)>::empty(),
        });
        if let Some(s) = self.output {
            let text = string_of(&chars);
            paths.push((text, s));
            proof {
                assert(paths@.drop_last() =~= base);
                assert(pairs_view(paths@) == pairs_view(base).push((chars@, s)));
                assert(chars@ + Seq::<char>::empty() =~= chars@);
                assert(pairs_view(paths@) =~= pairs_view(base) + prepend_all(chars@, own));
            }
        } else {
            proof {
                assert(pairs_view(paths@) =~= pairs_view(base) + prepend_all(chars@, own));
            }
        }
        if let Some(t) = &self.transitions {
            proof {
                lemma_node_view(*self);
            }
            let ghost es = self@.edge_seq();
            let n = t.len();
            let mut i: usize = 0;
            while i < n
                invariant
                    i <= n,
                    pairs_view(paths@) == pairs_view(base) + prepend_all(
                        chars@,
                        own + paths_of_entries(es.take(i as int)),
                    ),
                decreases n - i,
            {
                let entry = &t[i];
                let mut new_chars = clone_chars(&chars);
                new_chars.push(entry.0);
                proof {
                    let tvec = self.transitions->Some_0;
                    assert(decreases_to!(tvec => tvec@));
                    assert(decreases_to!(tvec@ => tvec@[i as int]));
                    assert(decreases_to!(tvec@[i as int] => tvec@[i as int].1));
                    assert(decreases_to!(*self => t@[i as int].1));
                }
                let ghost mid = paths@;
                entry.1.input_paths_inner(new_chars, paths);
                proof {
                    assert(entry.1@ == es[i as int].1);
                    lemma_paths_of_entries_step(es, i as int);
                    lemma_prepend_all_step(chars@, entry.0, entry.1@.paths());
                    lemma_prepend_all_add(
                        chars@,
                        own + paths_of_entries(es.take(i as int)),
                        prefix_paths(es[i as int].0, es[i as int].1.paths()),
                    );
                    assert((own + paths_of_entries(es.take(i as int))) + prefix_paths(
                        es[i as int].0,
                        es[i as int].1.paths(),
                    ) =~= own + paths_of_entries(es.take(i as int + 1)));
                }
                i = i + 1;
            }
            proof {
                assert(es.take(n as int) =~= es);
            }
        } else {
            proof {
                assert(self@.edges is None);
                assert(self@.paths() =~= own);
            }
        }
        proof {
            assert(self@.paths() =~= own + (match self@.edges {
                Some(es2) => paths_of_entries(es2),
                None => Seq::empty(),
            }));
        }
    }
}

impl<T: Copy> Node<T> {
    /// Counts the paths through the tree that result in an output: the
    /// node itself, if it accepts, plus the counts of all its children;
    /// a leaf contributes exactly one.
    #[verifier::loop_isolation(false)]
    pub fn num_output_paths(&self) -> (r: usize)
        requires
            self@.leaves_accept(),
            self@.paths().len() <= usize::MAX,
        ensures
            r as nat == self@.paths().len(),
        decreases *self,
    {
        let ghost own = (match self@.output {
            Some(t) => seq![(Seq::<char>::empty(), t)],
            None => Seq::<(Seq<char>, T)>::empty(),
        });
        match &self.transitions {
            Some(v) => {
                proof {
                    lemma_node_view(*self);
                }
                let ghost es = self@.edge_seq();
                let mut sum: usize = match self.output {
                    Some(_) => 1,
                    None => 0,
                };
                let n = v.len();
                let mut i: usize = 0;
                while i < n
                    invariant
                        i <= n,
                        sum as nat == own.len() + paths_of_entries(es.take(i as int)).len(),
                    decreases n - i,
                {
                    proof {
                        let tvec = self.transitions->Some_0;
                        assert(decreases_to!(tvec => tvec@));
                        assert(decreases_to!(tvec@ => tvec@[i as int]));
                        assert(decreases_to!(tvec@[i as int] => tvec@[i as int].1));
                        assert(decreases_to!(*self => v@[i as int].1));
                        lemma_paths_of_entries_step(es, i as int);
                        lemma_paths_of_entries_take_len(es, i as int + 1);
                        assert(es[i as int].1.leaves_accept());
                    }
                    let child_count = v[i].1.num_output_paths();
                    proof {
                        assert(prefix_paths(es[i as int].0, es[i as int].1.paths()).len() == es[
                            i as int].1.paths().len());
                    }
                    sum = sum + child_count;
                    i = i + 1;
                }
                proof {
                    assert(es.take(n as int) =~= es);
                }
                sum
            },
            None => {
                proof {
                    assert(self@.paths() =~= own);
                }
                1
            },
        }
    }
}

impl<T: Copy> Node<T> {
    /// Detect whether any two accepting paths spell the identical
    /// string, which would make tokenization depend on construction
    /// order; every offending string is reported together with its
    /// colliding output values. The audit checks the evidently intended
    /// property, and on a normalized tree it always succeeds: distinct
    /// accepting nodes of a tree with sorted, unique transition keys
    /// spell distinct strings, which is proved here once and for all.
    #[verifier::loop_isolation(false)]
    pub fn validate(&self) -> (r: Result<(), Vec<(String, Vec<T>)>>)
        requires
            self@.sorted(),
        ensures
            r is Ok,
    {
        let paths = self.input_paths();
        proof {
            lemma_paths_lex_sorted(self@);
            lemma_pairs_view(paths@);
        }
        let n = paths.len();
        let mut i: usize = 1;
        while i < n
            invariant
                i >= 1,
            decreases n - i,
        {
            let prev = &paths[i - 1];
            let curr = &paths[i];
            if prev.0 == curr.0 {
                proof {
                    assert(self@.paths()[i - 1 as int].0 == prev.0@);
                    assert(self@.paths()[i as int].0 == curr.0@);
                    lemma_lex_irrefl(prev.0@);
                    assert(false);
                }
                let mut colliding: Vec<T> = Vec::new();
                colliding.push(prev.1);
                colliding.push(curr.1);
                let mut report: Vec<(String, Vec<T>)> = Vec::new();
                report.push((prev.0.clone(), colliding));
                return Err(report);
            }
            i = i + 1;
        }
        Ok(())
    }
}

/// The model of a vector of path strings: each replaced by its
/// character sequence.
pub open spec fn strings_view(s: Seq<String>) -> Seq<Seq<char>>
    decreases s.len(),
{
    if s.len() == 0 {
        Seq::empty()
    } else {
        strings_view(s.drop_last()).push(s.last()@)
    }
}

impl<T: Copy + Ord> Node<T> {
    /// Documents every token that can be produced, together with all
    /// the strings that produce it: the same enumeration as
    /// `input_paths`, grouped by output value and sorted by value.
    /// Grouping and order are promised wherever the value type's
    /// comparison is a lawful total order.
    pub fn output_paths(&self) -> (r: Vec<(T, Vec<String>)>)
        ensures
            cmp_lawful::<T>() ==> {
                &&& forall|i: int, j: int|
                    0 <= i < j < r@.len() ==> (#[trigger] r@[i]).0.cmp_spec(&(#[trigger] r@[j]).0)
                        == Ordering::Less
                &&& forall|i: int|
                    0 <= i < r@.len() ==> strings_view((#[trigger] r@[i]).1@) == value_paths(
                        self@.paths(),
                        r@[i].0,
                    ) && value_paths(self@.paths(), r@[i].0).len() > 0
                &&& forall|t: T|
                    value_paths(self@.paths(), t).len() > 0 ==> exists|i: int|
                        0 <= i < r@.len() && (#[trigger] r@[i]).0 == t
            },
    {
        let pairs = self.input_paths();
        proof {
            lemma_pairs_view(pairs@);
        }
        let ghost pv = self@.paths();
        let mut groups: Vec<(T, Vec<String>)> = Vec::new();
        let n = pairs.len();
        let mut p: usize = 0;
        while p < n
            invariant
                p <= n,
                n == pairs@.len(),
                pv == self@.paths(),
                pv == pairs_view(pairs@),
                cmp_lawful::<T>() ==> {
                    &&& forall|i: int, j: int|
                        0 <= i < j < groups@.len() ==> (#[trigger] groups@[i]).0.cmp_spec(
                            &(#[trigger] groups@[j]).0,
                        ) == Ordering::Less
                    &&& forall|i: int|
                        0 <= i < groups@.len() ==> strings_view((#[trigger] groups@[i]).1@)
                            == value_paths(pv.take(p as int), groups@[i].0) && value_paths(
                            pv.take(p as int),
                            groups@[i].0,
                        ).len() > 0
                    &&& forall|t: T|
                        value_paths(pv.take(p as int), t).len() > 0 ==> exists|i: int|
                            0 <= i < groups@.len() && (#[trigger] groups@[i]).0 == t
                },
            decreases n - p,
        {
            let pair = &pairs[p];
            let ghost t = pair.1;
            proof {
                lemma_pairs_view(pairs@);
                assert(pv[p as int] == (pair.0@, pair.1));
            }
            let mut j: usize = 0;
            let mut at_equal = false;
            while j < groups.len()
                invariant_except_break
                    !at_equal,
                invariant
                    j <= groups@.len(),
                    t == pair.1,
                    cmp_lawful::<T>() ==> forall|k: int|
                        0 <= k < j ==> (#[trigger] groups@[k]).0.cmp_spec(&t) == Ordering::Less,
                ensures
                    j <= groups@.len(),
                    cmp_lawful::<T>() ==> forall|k: int|
                        0 <= k < j ==> (#[trigger] groups@[k]).0.cmp_spec(&t) == Ordering::Less,
                    at_equal ==> j < groups@.len() && (cmp_lawful::<T>()
                        ==> groups@[j as int].0.cmp_spec(&t) == Ordering::Equal),
                    !at_equal ==> j == groups@.len() || (cmp_lawful::<T>()
                        ==> groups@[j as int].0.cmp_spec(&t) == Ordering::Greater),
                decreases groups@.len() - j,
            {
                let ord = groups[j].0.cmp(&pair.1);
                match ord {
                    Ordering::Less => {
                        j = j + 1;
                    },
                    Ordering::Equal => {
                        at_equal = true;
                        break ;
                    },
                    Ordering::Greater => {
                        break ;
                    },
                }
            }
            let ghost before = groups@;
            if at_equal {
                let mut g = groups.remove(j);
                let ghost g_paths = g.1@;
                g.1.push(pair.0.clone());
                groups.insert(j, g);
                proof {
                    assert(groups@ =~= before.update(j as int, (before[j as int].0, g.1)));
                    if cmp_lawful::<T>() {
                        assert(before[j as int].0 == t);
                        assert(g.1@.drop_last() =~= g_paths);
                        assert(strings_view(g.1@) == strings_view(g_paths).push(pair.0@));
                        lemma_value_paths_step(pv, p as int, t);
                        assert(strings_view(g.1@) =~= value_paths(pv.take(p as int), t) + seq![
                            pair.0@,
                        ]);
                        assert forall|i: int| 0 <= i < groups@.len() && i != j implies (
                        #[trigger] groups@[i]).0 != t by {
                            if i < j {
                                assert(before[i].0.cmp_spec(&t) == Ordering::Less);
                            } else {
                                assert(before[j as int].0.cmp_spec(&before[i].0)
                                    == Ordering::Less);
                            }
                        }
                        assert forall|i: int|
                            0 <= i < groups@.len() && i != j implies value_paths(
                            pv.take(p as int + 1),
                            (#[trigger] groups@[i]).0,
                        ) == value_paths(pv.take(p as int), groups@[i].0) by {
                            lemma_value_paths_step(pv, p as int, groups@[i].0);
                            assert(value_paths(pv.take(p as int + 1), groups@[i].0)
                                =~= value_paths(pv.take(p as int), groups@[i].0));
                        }
                        assert forall|v: T|
                            (#[trigger] value_paths(pv.take(p as int + 1), v)).len()
                            > 0 implies exists|i: int| 0 <= i < groups@.len() && (
                        #[trigger] groups@[i]).0 == v by {
                            lemma_value_paths_step(pv, p as int, v);
                            if v == t {
                                assert(groups@[j as int].0 == v);
                            } else {
                                assert(value_paths(pv.take(p as int), v).len() > 0);
                                let i = choose|i: int|
                                    0 <= i < before.len() && (#[trigger] before[i]).0 == v;
                                assert(groups@[i].0 == v);
                            }
                        }
                    }
                }
            } else {
                let mut fresh: Vec<String> = Vec::new();
                fresh.push(pair.0.clone());
                groups.insert(j, (pair.1, fresh));
                proof {
                    if cmp_lawful::<T>() {
                        lemma_value_paths_step(pv, p as int, t);
                        assert forall|i: int|
                            0 <= i < before.len() implies (#[trigger] before[i]).0 != t by {
                            if i < j {
                                assert(before[i].0.cmp_spec(&t) == Ordering::Less);
                            } else if i == j {
                                assert(before[i].0.cmp_spec(&t) == Ordering::Greater);
                                assert(t.cmp_spec(&before[i].0) == Ordering::Less);
                            } else {
                                assert(before[j as int].0.cmp_spec(&t) == Ordering::Greater);
                                assert(t.cmp_spec(&before[j as int].0) == Ordering::Less);
                                assert(before[j as int].0.cmp_spec(&before[i].0)
                                    == Ordering::Less);
                            }
                        }
                        assert(value_paths(pv.take(p as int), t).len() == 0) by {
                            if value_paths(pv.take(p as int), t).len() > 0 {
                                let i = choose|i: int|
                                    0 <= i < before.len() && (#[trigger] before[i]).0 == t;
                            }
                        }
                        assert(fresh@.len() == 1);
                        assert(fresh@.drop_last() =~= Seq::<String>::empty());
                        assert(strings_view(fresh@.drop_last()) == Seq::<Seq<char>>::empty());
                        assert(fresh@.last() == pair.0);
                        assert(strings_view(fresh@) =~= Seq::<Seq<char>>::empty().push(pair.0@));
                        assert(strings_view(fresh@) =~= value_paths(pv.take(p as int), t) + seq![
                            pair.0@,
                        ]);
                        assert forall|i: int|
                            0 <= i < groups@.len() && i != j implies value_paths(
                            pv.take(p as int + 1),
                            (#[trigger] groups@[i]).0,
                        ) == value_paths(pv.take(p as int), groups@[i].0) && groups@[i]
                            == (if i < j {
                            before[i]
                        } else {
                            before[i - 1]
                        }) by {
                            lemma_value_paths_step(pv, p as int, groups@[i].0);
                            assert(value_paths(pv.take(p as int + 1), groups@[i].0)
                                =~= value_paths(pv.take(p as int), groups@[i].0));
                        }
                        assert forall|a: int, b: int|
                            0 <= a < b < groups@.len() implies (#[trigger] groups@[a]).0.cmp_spec(
                            &(#[trigger] groups@[b]).0,
                        ) == Ordering::Less by {
                            if b == j {
                                assert(groups@[a] == before[a]);
                                assert(before[a].0.cmp_spec(&t) == Ordering::Less);
                            } else if a == j {
                                assert(groups@[b] == before[b - 1]);
                                if b - 1 == j {
                                    assert(before[j as int].0.cmp_spec(&t) == Ordering::Greater);
                                    assert(t.cmp_spec(&before[j as int].0) == Ordering::Less);
                                } else {
                                    assert(before[j as int].0.cmp_spec(&before[b - 1].0)
                                        == Ordering::Less);
                                    assert(t.cmp_spec(&before[j as int].0) == Ordering::Less);
                                }
                            }
                        }
                        assert forall|v: T|
                            (#[trigger] value_paths(pv.take(p as int + 1), v)).len()
                            > 0 implies exists|i: int| 0 <= i < groups@.len() && (
                        #[trigger] groups@[i]).0 == v by {
                            lemma_value_paths_step(pv, p as int, v);
                            if v == t {
                                assert(groups@[j as int].0 == v);
                            } else {
                                assert(value_paths(pv.take(p as int), v).len() > 0);
                                let i = choose|i: int|
                                    0 <= i < before.len() && (#[trigger] before[i]).0 == v;
                                if i < j {
                                    assert(groups@[i].0 == v);
                                } else {
                                    assert(groups@[i + 1].0 == v);
                                }
                            }
                        }
                    }
                }
            }
            p = p + 1;
        }
        proof {
            assert(pv.take(n as int) =~= pv);
        }
        groups
    }
}

/// A string holding exactly the given characters, in order.
fn string_of(chars: &Vec<char>) -> (r: String)
    ensures
        r@ == chars@,
{
    let mut out = String::new();
    let mut i: usize = 0;
    let n = chars.len();
    while i < n
        invariant
            i <= n,
            n == chars@.len(),
            out@ == chars@.take(i as int),
        decreases n - i,
    {
        push_char(&mut out, chars[i]);
        proof {
            assert(chars@.take(i as int + 1) =~= chars@.take(i as int).push(chars@[i as int]));
        }
        i = i + 1;
    }
    proof {
        assert(chars@.take(n as int) =~= chars@);
    }
    out
}

/// A copy of a character vector.
fn clone_chars(chars: &Vec<char>) -> (r: Vec<char>)
    ensures
        r@ == chars@,
{
    let mut out: Vec<char> = Vec::new();
    let mut i: usize = 0;
    let n = chars.len();
    while i < n
        invariant
            i <= n,
            n == chars@.len(),
            out@ == chars@.take(i as int),
        decreases n - i,
    {
        out.push(chars[i]);
        proof {
            assert(chars@.take(i as int + 1) =~= chars@.take(i as int).push(chars@[i as int]));
        }
        i = i + 1;
    }
    proof {
        assert(chars@.take(n as int) =~= chars@);
    }
    out
}

/// The characters of a text, in order: the character-sequence form that
/// matching works over.
fn chars_of(text: &str) -> (r: Vec<char>)
    ensures
        r@ == text@,
{
    let n = text.unicode_len();
    let mut out: Vec<char> = Vec::new();
    let mut i: usize = 0;
    while i < n
        invariant
            i <= n,
            n == text@.len(),
            out@ == text@.take(i as int),
        decreases n - i,
    {
        let c = text.get_char(i);
        out.push(c);
        proof {
            assert(text@.take(i as int + 1) =~= text@.take(i as int).push(c));
        }
        i = i + 1;
    }
    proof {
        assert(text@.take(n as int) =~= text@);
    }
    out
}

} // verus!
