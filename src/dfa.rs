use crate::model::{
    contiguous_match, gap_match, is_subsequence, lemma_contiguous_implies_gap, occurs_at, word_seqs,
};
use crate::trie::{
    keys_unique, lemma_step_of_edge, lemma_walk_extend, lemma_walk_prefix, lemma_walk_push, known_prefix_len, step_spec,
    walk,
};
use vstd::prelude::*;

verus! {

/// Total number of characters of the words present in `ws`.
pub open spec fn total_chars(ws: Seq<Option<String>>) -> nat
    decreases ws.len(),
{
    if ws.len() == 0 {
        0
    } else {
        total_chars(ws.drop_last()) + match ws.last() {
            Some(s) => s@.len(),
            None => 0,
        }
    }
}

/// The character sequences of the words present in `ws`, in order.
pub open spec fn present_words(ws: Seq<Option<String>>) -> Seq<Seq<char>>
    decreases ws.len(),
{
    if ws.len() == 0 {
        Seq::empty()
    } else {
        match ws.last() {
            Some(s) => present_words(ws.drop_last()).push(s@),
            None => present_words(ws.drop_last()),
        }
    }
}

proof fn lemma_total_chars_prefix(ws: Seq<Option<String>>, i: int)
    requires
        0 <= i <= ws.len(),
    ensures
        total_chars(ws.subrange(0, i)) <= total_chars(ws),
    decreases ws.len() - i,
{
    if i < ws.len() {
        lemma_total_chars_prefix(ws, i + 1);
        assert(ws.subrange(0, i + 1).drop_last() =~= ws.subrange(0, i));
    } else {
        assert(ws.subrange(0, i) =~= ws);
    }
}

/// An automaton over the added words: a trie of transitions from the root state
/// `0`, the states where a word ends, and the words themselves in the order added.
pub struct DFA {
    /// Transitions `(from, character, to)`; no two share `from` and `character`.
    pub transitions: Vec<(usize, char, usize)>,
    /// States at which an added word ends, one entry per added word.
    pub accept_states: Vec<usize>,
    /// Every added word, verbatim, duplicates and empty words included.
    pub original_words: Vec<String>,
    /// The identifier the next new state gets; identifiers below it are in use.
    pub next_state: usize,
    /// For each state, the characters spelled on the way to it from the root.
    pub labels: Ghost<Seq<Seq<char>>>,
}

impl DFA {
    /// The words added so far.
    pub open spec fn words(&self) -> Seq<Seq<char>> {
        word_seqs(self.original_words@)
    }

    /// Well-formedness: states are below `next_state`; the root `0` spells
    /// nothing; transition keys are unique; each transition's target spells its
    /// source's characters plus the transition's character; walking a state's
    /// characters from the root reaches that state (so every state is reachable
    /// and stands for one prefix); and the `k`-th accepting state spells the
    /// `k`-th added word.
    pub open spec fn wf(&self) -> bool {
        let labels = self.labels@;
        let edges = self.transitions@;
        let accepts = self.accept_states@;
        let words = self.words();
        &&& self.next_state >= 1
        &&& labels.len() == self.next_state
        &&& labels[0].len() == 0
        &&& keys_unique(edges)
        &&& forall|i: int|
            #![trigger edges[i]]
            0 <= i < edges.len() ==> {
                &&& edges[i].0 < self.next_state
                &&& 1 <= edges[i].2 < self.next_state
                &&& labels[edges[i].2 as int] == labels[edges[i].0 as int].push(edges[i].1)
            }
        &&& forall|s: int|
            #![trigger labels[s]]
            0 <= s < self.next_state ==> walk(edges, 0, labels[s]) == Some(s as usize)
        &&& accepts.len() == words.len()
        &&& forall|k: int|
            #![trigger accepts[k]]
            0 <= k < accepts.len() ==> {
                &&& accepts[k] < self.next_state
                &&& labels[accepts[k] as int] == words[k]
            }
    }

    /// An empty automaton: no transitions, no accepting state, no words.
    pub fn new() -> (r: Self)
        ensures
            r.wf(),
            r.transitions@.len() == 0,
            r.accept_states@.len() == 0,
            r.original_words@.len() == 0,
            r.next_state == 1,
    {
        let ghost labels: Seq<Seq<char>> = seq![Seq::empty()];
        let r = DFA {
            transitions: Vec::new(),
            accept_states: Vec::new(),
            original_words: Vec::new(),
            next_state: 1,
            labels: Ghost(labels),
        };
        assert(r.labels@[0] == Seq::<char>::empty());
        r
    }

    /// The target of the transition from `s` on `c`, if there is one.
    fn step(&self, s: usize, c: char) -> (r: Option<usize>)
        ensures
            match r {
                Some(t) => exists|k: int|
                    #![trigger self.transitions@[k]]
                    0 <= k < self.transitions@.len() && self.transitions@[k] == (s, c, t),
                None => forall|k: int|
                    #![trigger self.transitions@[k]]
                    0 <= k < self.transitions@.len() ==> !(self.transitions@[k].0 == s
                        && self.transitions@[k].1 == c),
            },
            keys_unique(self.transitions@) ==> r == step_spec(self.transitions@, s, c),
    {
        let mut k: usize = 0;
        while k < self.transitions.len()
            invariant
                k <= self.transitions@.len(),
                forall|m: int|
                    #![trigger self.transitions@[m]]
                    0 <= m < k ==> !(self.transitions@[m].0 == s && self.transitions@[m].1 == c),
            decreases self.transitions@.len() - k,
        {
            let e = self.transitions[k];
            if e.0 == s && e.1 == c {
                proof {
                    if keys_unique(self.transitions@) {
                        lemma_step_of_edge(self.transitions@, k as int);
                    }
                }
                return Some(e.2);
            }
            k += 1;
        }
        None
    }

    /// Whether `s` is one of the accepting states.
    fn is_accepting(&self, s: usize) -> (r: bool)
        ensures
            r == self.accept_states@.contains(s),
    {
        let mut k: usize = 0;
        while k < self.accept_states.len()
            invariant
                k <= self.accept_states@.len(),
                forall|m: int| 0 <= m < k ==> self.accept_states@[m] != s,
            decreases self.accept_states@.len() - k,
        {
            if self.accept_states[k] == s {
                return true;
            }
            k += 1;
        }
        false
    }

    /// Walks `word` from the root, creating a fresh state wherever a transition
    /// is missing; returns the state reached.
    fn insert_path(&mut self, word: &str) -> (cur: usize)
        requires
            old(self).wf(),
            old(self).next_state + word@.len() <= usize::MAX,
        ensures
            final(self).wf(),
            final(self).words() == old(self).words(),
            final(self).accept_states@ == old(self).accept_states@,
            cur < final(self).next_state,
            final(self).labels@[cur as int] == word@,
            walk(final(self).transitions@, 0, word@) == Some(cur),
            final(self).transitions@.subrange(0, old(self).transitions@.len() as int)
                == old(self).transitions@,
            final(self).transitions@.len() - old(self).transitions@.len() == final(self).next_state
                - old(self).next_state,
            forall|k: int|
                #![trigger final(self).transitions@[k]]
                old(self).transitions@.len() <= k < final(self).transitions@.len()
                    ==> final(self).transitions@[k].2 == old(self).next_state + (k
                    - old(self).transitions@.len()),
            walk(old(self).transitions@, 0, word@) is Some ==> final(self).transitions@ == old(
                self,
            ).transitions@ && final(self).next_state == old(self).next_state,
            final(self).transitions@.len() == old(self).transitions@.len() + word@.len()
                - known_prefix_len(old(self).transitions@, word@),
            old(self).next_state <= final(self).next_state <= old(self).next_state + word@.len(),
            final(self).labels@.subrange(0, old(self).next_state as int) == old(self).labels@,
    {
        let ghost w = word@;
        let ghost start = self.next_state;
        let ghost old_labels = self.labels@;
        let ghost old_edges = self.transitions@;
        let ghost old_accepts = self.accept_states@;
        let ghost old_words = self.words();
        let n = word.unicode_len();
        let mut cur: usize = 0;
        let mut i: usize = 0;
        assert(w.subrange(0, 0) =~= Seq::<char>::empty());
        assert(old_labels.subrange(0, start as int) =~= old_labels);
        while i < n
            invariant
                n == w.len(),
                w == word@,
                i <= n,
                self.wf(),
                self.words() == old_words,
                self.accept_states@ == old_accepts,
                start <= self.next_state <= start + i,
                start + n <= usize::MAX,
                start == old_labels.len(),
                self.labels@.subrange(0, start as int) == old_labels,
                cur < self.next_state,
                self.labels@[cur as int] == w.subrange(0, i as int),
                walk(self.transitions@, 0, w.subrange(0, i as int)) == Some(cur),
                old_edges.len() <= self.transitions@.len(),
                self.transitions@.subrange(0, old_edges.len() as int) == old_edges,
                self.transitions@.len() - old_edges.len() == self.next_state - start,
                forall|k: int|
                    #![trigger self.transitions@[k]]
                    old_edges.len() <= k < self.transitions@.len() ==> self.transitions@[k].2
                        == start + (k - old_edges.len()),
                walk(old_edges, 0, w.subrange(0, i as int)) is Some ==> self.transitions@
                    == old_edges,
                walk(old_edges, 0, w.subrange(0, i as int)) is None ==> {
                    &&& cur + 1 == self.next_state
                    &&& forall|k: int|
                        #![trigger self.transitions@[k]]
                        0 <= k < self.transitions@.len() ==> self.transitions@[k].0 != cur
                },
                self.transitions@.len() - old_edges.len() == i - known_prefix_len(
                    old_edges,
                    w.subrange(0, i as int),
                ),
                known_prefix_len(old_edges, w.subrange(0, i as int)) <= i,
            decreases n - i,
        {
            let c = word.get_char(i);
            let ghost prefix = w.subrange(0, i as int);
            assert(w.subrange(0, i + 1) =~= prefix.push(c));
            assert(w.subrange(0, i + 1).drop_last() =~= prefix);
            proof {
                lemma_walk_push(self.transitions@, 0, prefix, c);
                lemma_walk_push(old_edges, 0, prefix, c);
            }
            match self.step(cur, c) {
                Some(t) => {
                    proof {
                        let k = choose|k: int|
                            #![trigger self.transitions@[k]]
                            0 <= k < self.transitions@.len() && self.transitions@[k] == (cur, c, t);
                        assert(self.transitions@[k] == (cur, c, t));
                        if walk(old_edges, 0, prefix) is None {
                            assert(self.transitions@[k].0 != cur);
                        }
                        if walk(old_edges, 0, w.subrange(0, i + 1)) is None {
                            assert(self.transitions@ == old_edges);
                            assert(step_spec(old_edges, cur, c) is Some);
                        }
                    }
                    cur = t;
                },
                None => {
                    let t = self.next_state;
                    let ghost labels = self.labels@;
                    let ghost edges = self.transitions@;
                    proof {
                        if walk(old_edges, 0, w.subrange(0, i + 1)) is Some {
                            assert(edges == old_edges);
                            let k = choose|k: int|
                                #![trigger edges[k]]
                                0 <= k < edges.len() && edges[k].0 == cur && edges[k].1 == c;
                            assert(false);
                        }
                    }
                    self.transitions.push((cur, c, t));
                    self.next_state = t + 1;
                    self.labels = Ghost(labels.push(labels[cur as int].push(c)));
                    proof {
                        let e = self.transitions@;
                        assert(self.labels@.subrange(0, start as int) =~= labels.subrange(
                            0,
                            start as int,
                        ));
                        assert(e.subrange(0, edges.len() as int) =~= edges);
                        assert forall|a: int, b: int|
                            #![trigger e[a], e[b]]
                            0 <= a < b < e.len() implies !(e[a].0 == e[b].0 && e[a].1
                                == e[b].1) by {
                            if b < edges.len() {
                                assert(e[a] == edges[a] && e[b] == edges[b]);
                            } else {
                                assert(e[a] == edges[a]);
                            }
                        }
                        assert forall|a: int|
                            #![trigger e[a]]
                            0 <= a < e.len() implies {
                                &&& e[a].0 < self.next_state
                                &&& 1 <= e[a].2 < self.next_state
                                &&& self.labels@[e[a].2 as int] == self.labels@[e[a].0 as int].push(
                                    e[a].1,
                                )
                            } by {
                            if a < edges.len() {
                                assert(e[a] == edges[a]);
                            }
                        }
                        lemma_step_of_edge(e, edges.len() as int);
                        lemma_walk_extend(edges, e, 0, labels[cur as int]);
                        lemma_walk_push(e, 0, labels[cur as int], c);
                        assert forall|s: int|
                            #![trigger self.labels@[s]]
                            0 <= s < self.next_state implies walk(e, 0, self.labels@[s]) == Some(
                                s as usize,
                            ) by {
                            if s < t {
                                assert(self.labels@[s] == labels[s]);
                                lemma_walk_extend(edges, e, 0, labels[s]);
                            }
                        }
                        let accepts = self.accept_states@;
                        assert forall|k: int|
                            #![trigger accepts[k]]
                            0 <= k < accepts.len() implies {
                                &&& accepts[k] < self.next_state
                                &&& self.labels@[accepts[k] as int] == self.words()[k]
                            } by {
                            assert(self.labels@[accepts[k] as int] == labels[accepts[k] as int]);
                        }
                        assert forall|k: int|
                            #![trigger e[k]]
                            old_edges.len() <= k < e.len() implies e[k].2 == start + (k
                                - old_edges.len()) by {
                            if k < edges.len() {
                                assert(e[k] == edges[k]);
                            }
                        }
                        assert(e.subrange(0, old_edges.len() as int) =~= edges.subrange(
                            0,
                            old_edges.len() as int,
                        ));
                        assert forall|k: int|
                            #![trigger e[k]]
                            0 <= k < e.len() implies e[k].0 != t by {
                            if k < edges.len() {
                                assert(e[k] == edges[k]);
                            }
                        }
                    }
                    cur = t;
                },
            }
            i += 1;
        }
        assert(w.subrange(0, n as int) =~= w);
        cur
    }

    /// Adds a word: walks it from the root, creating a fresh state wherever a
    /// transition is missing, and marks the state reached as accepting.
    pub fn add_word(&mut self, word: &str)
        requires
            old(self).wf(),
            old(self).next_state + word@.len() <= usize::MAX,
        ensures
            final(self).wf(),
            final(self).words() == old(self).words().push(word@),
            final(self).accept_states@.drop_last() == old(self).accept_states@,
            walk(final(self).transitions@, 0, word@) == Some(final(self).accept_states@.last()),
            final(self).transitions@.subrange(0, old(self).transitions@.len() as int)
                == old(self).transitions@,
            final(self).transitions@.len() - old(self).transitions@.len() == final(self).next_state
                - old(self).next_state,
            forall|k: int|
                #![trigger final(self).transitions@[k]]
                old(self).transitions@.len() <= k < final(self).transitions@.len()
                    ==> final(self).transitions@[k].2 == old(self).next_state + (k
                    - old(self).transitions@.len()),
            walk(old(self).transitions@, 0, word@) is Some ==> final(self).transitions@ == old(
                self,
            ).transitions@ && final(self).next_state == old(self).next_state,
            final(self).transitions@.len() == old(self).transitions@.len() + word@.len()
                - known_prefix_len(old(self).transitions@, word@),
            word@.len() == 0 ==> final(self).transitions@ == old(self).transitions@,
            old(self).words().contains(word@) ==> {
                &&& final(self).transitions@ == old(self).transitions@
                &&& final(self).next_state == old(self).next_state
                &&& old(self).accept_states@.contains(final(self).accept_states@.last())
            },
            old(self).next_state <= final(self).next_state <= old(self).next_state + word@.len(),
            final(self).labels@.subrange(0, old(self).next_state as int) == old(self).labels@,
    {
        let ghost w = word@;
        let ghost start = self.next_state;
        let ghost old_labels = self.labels@;
        let ghost old_edges = self.transitions@;
        let ghost old_accepts = self.accept_states@;
        let ghost old_words = self.words();
        let cur = self.insert_path(word);
        self.accept_states.push(cur);
        self.original_words.push(word.to_string());
        proof {
            let accepts = self.accept_states@;
            let words = self.words();
            assert(words =~= old_words.push(w));
            assert forall|k: int|
                #![trigger accepts[k]]
                0 <= k < accepts.len() implies {
                    &&& accepts[k] < self.next_state
                    &&& self.labels@[accepts[k] as int] == words[k]
                } by {
                if k < old_accepts.len() {
                    assert(accepts[k] == old_accepts[k]);
                    assert(words[k] == old_words[k]);
                }
            }
            assert(accepts.drop_last() =~= old_accepts);
            if old_words.contains(w) {
                let j = choose|j: int| 0 <= j < old_words.len() && old_words[j] == w;
                assert(old_accepts[j] < start);
                assert(old_labels[old_accepts[j] as int] == old_words[j]);
                assert(walk(old_edges, 0, w) is Some);
                assert(old_accepts.contains(old_accepts[j]));
            }
        }
    }

    /// Walking an added word from the root ends at its accepting state.
    proof fn lemma_word_reaches_accept(&self, j: int)
        requires
            self.wf(),
            0 <= j < self.words().len(),
        ensures
            self.accept_states@[j] < self.next_state,
            walk(self.transitions@, 0, self.words()[j]) == Some(self.accept_states@[j]),
            self.accept_states@.contains(self.accept_states@[j]),
    {
        let accepts = self.accept_states@;
        assert(accepts[j] < self.next_state);
        assert(self.labels@[accepts[j] as int] == self.words()[j]);
    }

    /// Walks the automaton from the root along `text` from `start`; true as soon
    /// as an accepting state is entered, false at a missing transition or at the
    /// end of the text.
    #[verifier::rlimit(50)]
    fn matches_at(&self, text: &[char], start: usize) -> (r: bool)
        requires
            self.wf(),
            start <= text@.len(),
        ensures
            r == exists|j: int|
                #![trigger self.words()[j]]
                0 <= j < self.words().len() && self.words()[j].len() > 0 && occurs_at(
                    self.words()[j],
                    text@,
                    start as int,
                ),
    {
        let ghost words = self.words();
        let ghost labels = self.labels@;
        let ghost edges = self.transitions@;
        let ghost accepts = self.accept_states@;
        let mut cur: usize = 0;
        let mut p: usize = start;
        assert(text@.subrange(start as int, start as int) =~= Seq::<char>::empty());
        while p < text.len()
            invariant
                self.wf(),
                words == self.words(),
                labels == self.labels@,
                edges == self.transitions@,
                accepts == self.accept_states@,
                start <= p <= text@.len(),
                cur < self.next_state,
                labels[cur as int] == text@.subrange(start as int, p as int),
                walk(edges, 0, text@.subrange(start as int, p as int)) == Some(cur),
                forall|j: int|
                    #![trigger words[j]]
                    0 <= j < words.len() && 0 < words[j].len() <= p - start ==> !occurs_at(
                        words[j],
                        text@,
                        start as int,
                    ),
            decreases text@.len() - p,
        {
            let c = text[p];
            let ghost piece = text@.subrange(start as int, p as int);
            let ghost next = text@.subrange(start as int, p + 1);
            assert(next =~= piece.push(c));
            proof {
                lemma_walk_push(edges, 0, piece, c);
            }
            match self.step(cur, c) {
                Some(t) => {
                    proof {
                        let k = choose|k: int|
                            #![trigger edges[k]]
                            0 <= k < edges.len() && edges[k] == (cur, c, t);
                        assert(edges[k] == (cur, c, t));
                    }
                    cur = t;
                    if self.is_accepting(cur) {
                        proof {
                            let m = choose|m: int| 0 <= m < accepts.len() && accepts[m] == t;
                            assert(accepts[m] == t);
                            assert(words[m] == next);
                            assert(occurs_at(words[m], text@, start as int));
                        }
                        return true;
                    }
                    proof {
                        assert forall|j: int|
                            #![trigger words[j]]
                            0 <= j < words.len() && 0 < words[j].len() <= p + 1
                                - start implies !occurs_at(words[j], text@, start as int) by {
                            if words[j].len() == p + 1 - start && occurs_at(
                                words[j],
                                text@,
                                start as int,
                            ) {
                                self.lemma_word_reaches_accept(j);
                                assert(words[j] == next);
                            }
                        }
                    }
                },
                None => {
                    proof {
                        assert forall|j: int|
                            #![trigger words[j]]
                            0 <= j < words.len() && words[j].len() > 0 implies !occurs_at(
                                words[j],
                                text@,
                                start as int,
                            ) by {
                            if words[j].len() > p - start && occurs_at(
                                words[j],
                                text@,
                                start as int,
                            ) {
                                self.lemma_word_reaches_accept(j);
                                lemma_walk_prefix(edges, 0, words[j], p + 1 - start);
                                assert(words[j].subrange(0, p + 1 - start) =~= next);
                            }
                        }
                    }
                    return false;
                },
            }
            p += 1;
        }
        false
    }

    /// Tries each start position in turn, walking the automaton from the root;
    /// true exactly when some added non-empty word occurs unbroken in `text`.
    fn is_continuous_match(&self, text: &[char]) -> (r: bool)
        requires
            self.wf(),
        ensures
            r == contiguous_match(self.words(), text@),
    {
        let ghost words = self.words();
        let mut i: usize = 0;
        while i < text.len()
            invariant
                self.wf(),
                words == self.words(),
                i <= text@.len(),
                forall|j: int, q: int|
                    #![trigger words[j], occurs_at(words[j], text@, q)]
                    0 <= j < words.len() && words[j].len() > 0 && q < i ==> !occurs_at(
                        words[j],
                        text@,
                        q,
                    ),
            decreases text@.len() - i,
        {
            if self.matches_at(text, i) {
                return true;
            }
            i += 1;
        }
        false
    }

    /// Whether `word` occurs in `text` in order, with any characters allowed
    /// between its letters, trying each position holding the word's first letter.
    pub fn check_skip_match(text: &[char], word: &[char]) -> (r: bool)
        ensures
            r == (word@.len() > 0 && is_subsequence(word@, text@)),
    {
        if word.len() == 0 {
            return false;
        }
        let first = word[0];
        let mut i: usize = 0;
        assert(text@.subrange(0, text@.len() as int) =~= text@);
        while i < text.len()
            invariant
                i <= text@.len(),
                word@.len() > 0,
                first == word@[0],
                is_subsequence(word@, text@) == is_subsequence(
                    word@,
                    text@.subrange(i as int, text@.len() as int),
                ),
            decreases text@.len() - i,
        {
            assert(text@.subrange(i as int, text@.len() as int).drop_first() =~= text@.subrange(
                i + 1,
                text@.len() as int,
            ));
            if text[i] == first {
                if Self::matches_from(text, word, i) {
                    return true;
                }
            }
            i += 1;
        }
        false
    }

    /// Greedy scan from `start`: consumes the word's letters in order, skipping
    /// any characters that do not match the next one.
    fn matches_from(text: &[char], word: &[char], start: usize) -> (r: bool)
        requires
            start <= text@.len(),
            word@.len() > 0,
        ensures
            r == is_subsequence(word@, text@.subrange(start as int, text@.len() as int)),
    {
        let mut tp: usize = start;
        let mut wp: usize = 0;
        assert(word@.subrange(0, word@.len() as int) =~= word@);
        while tp < text.len()
            invariant
                start <= tp <= text@.len(),
                wp < word@.len(),
                is_subsequence(word@, text@.subrange(start as int, text@.len() as int))
                    == is_subsequence(
                    word@.subrange(wp as int, word@.len() as int),
                    text@.subrange(tp as int, text@.len() as int),
                ),
            decreases text@.len() - tp,
        {
            let ghost ws = word@.subrange(wp as int, word@.len() as int);
            let ghost ts = text@.subrange(tp as int, text@.len() as int);
            assert(ts.drop_first() =~= text@.subrange(tp + 1, text@.len() as int));
            assert(ws.drop_first() =~= word@.subrange(wp + 1, word@.len() as int));
            if text[tp] == word[wp] {
                proof {
                    crate::model::lemma_subsequence_greedy(ws, ts);
                }
                wp += 1;
                if wp == word.len() {
                    return true;
                }
            }
            tp += 1;
        }
        false
    }

    /// Whether some added non-empty word occurs in `text` in order, with any
    /// characters allowed between its letters.
    fn is_skip_match(&self, text: &[char]) -> (r: bool)
        ensures
            r == gap_match(self.words(), text@),
    {
        let ghost words = self.words();
        let mut i: usize = 0;
        while i < self.original_words.len()
            invariant
                i <= self.original_words@.len(),
                words == self.words(),
                forall|j: int|
                    #![trigger words[j]]
                    0 <= j < i ==> !(words[j].len() > 0 && is_subsequence(words[j], text@)),
            decreases self.original_words@.len() - i,
        {
            let word_chars = chars_of(self.original_words[i].as_str());
            if Self::check_skip_match(text, word_chars.as_slice()) {
                assert(words[i as int] == word_chars@);
                return true;
            }
            assert(words[i as int] == word_chars@);
            i += 1;
        }
        false
    }

    /// Whether `text` holds an added non-empty word, either unbroken or with
    /// filler characters between its letters. The unbroken scan runs first.
    pub fn is_sensitive(&self, text: &str) -> (r: bool)
        requires
            self.wf(),
        ensures
            r == gap_match(self.words(), text@),
    {
        let chars = chars_of(text);
        if self.is_continuous_match(chars.as_slice()) {
            proof {
                lemma_contiguous_implies_gap(self.words(), chars@);
            }
            return true;
        }
        self.is_skip_match(chars.as_slice())
    }
}

/// The characters of `s`, in order.
fn chars_of(s: &str) -> (r: Vec<char>)
    ensures
        r@ == s@,
{
    let n = s.unicode_len();
    let mut r: Vec<char> = Vec::new();
    let mut i: usize = 0;
    while i < n
        invariant
            n == s@.len(),
            i <= n,
            r@ == s@.subrange(0, i as int),
        decreases n - i,
    {
        r.push(s.get_char(i));
        i += 1;
        assert(r@ =~= s@.subrange(0, i as int));
    }
    assert(s@.subrange(0, n as int) =~= s@);
    r
}

/// A fresh, empty automaton.
pub fn create_dfa() -> (r: DFA)
    ensures
        r.wf(),
        r.words().len() == 0,
        r.transitions@.len() == 0,
        r.accept_states@.len() == 0,
        r.next_state == 1,
{
    let r = DFA::new();
    assert(r.words() =~= Seq::<Seq<char>>::empty());
    r
}

/// Adds one word to `dfa`.
pub fn add_sensitive_word(dfa: &mut DFA, word: &str)
    requires
        old(dfa).wf(),
        old(dfa).next_state + word@.len() <= usize::MAX,
    ensures
        final(dfa).wf(),
        final(dfa).words() == old(dfa).words().push(word@),
        old(dfa).next_state <= final(dfa).next_state <= old(dfa).next_state + word@.len(),
{
    dfa.add_word(word);
}

/// Adds every present word of `words`, in order, skipping the absent ones; true
/// exactly when none was absent.
pub fn add_sensitive_words(dfa: &mut DFA, words: &[Option<String>]) -> (r: bool)
    requires
        old(dfa).wf(),
        old(dfa).next_state + total_chars(words@) <= usize::MAX,
    ensures
        final(dfa).wf(),
        final(dfa).words() == old(dfa).words() + present_words(words@),
        r == (forall|k: int| 0 <= k < words@.len() ==> (#[trigger] words@[k]) is Some),
        old(dfa).next_state <= final(dfa).next_state <= old(dfa).next_state + total_chars(words@),
{
    let ghost start = dfa.next_state;
    let ghost base = dfa.words();
    let mut success = true;
    let mut i: usize = 0;
    assert(base + present_words(words@.subrange(0, 0)) =~= base);
    while i < words.len()
        invariant
            i <= words@.len(),
            dfa.wf(),
            dfa.words() == base + present_words(words@.subrange(0, i as int)),
            start <= dfa.next_state <= start + total_chars(words@.subrange(0, i as int)),
            start + total_chars(words@) <= usize::MAX,
            success == (forall|k: int| 0 <= k < i ==> (#[trigger] words@[k]) is Some),
        decreases words@.len() - i,
    {
        let ghost before = words@.subrange(0, i as int);
        let ghost after = words@.subrange(0, i + 1);
        assert(after.drop_last() =~= before);
        proof {
            lemma_total_chars_prefix(words@, i + 1);
        }
        match &words[i] {
            Some(word) => {
                dfa.add_word(word.as_str());
                assert(base + present_words(after) =~= (base + present_words(before)).push(
                    word@,
                ));
            },
            None => {
                success = false;
            },
        }
        i += 1;
    }
    assert(words@.subrange(0, words@.len() as int) =~= words@);
    success
}

/// Builds an automaton from the present words of `words` and tells whether
/// `text` holds one of them.
pub fn run_dfa_with_words(text: &str, words: &[Option<String>]) -> (r: bool)
    requires
        1 + total_chars(words@) <= usize::MAX,
    ensures
        r == gap_match(present_words(words@), text@),
{
    let mut dfa = create_dfa();
    add_sensitive_words(&mut dfa, words);
    assert(dfa.words() =~= present_words(words@));
    dfa.is_sensitive(text)
}

} // verus!
