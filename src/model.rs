use vstd::prelude::*;

verus! {

/// `w` occurs in `t` in order, with any characters allowed between its letters.
pub open spec fn is_subsequence(w: Seq<char>, t: Seq<char>) -> bool
    decreases t.len(),
{
    if w.len() == 0 {
        true
    } else if t.len() == 0 {
        false
    } else {
        (t[0] == w[0] && is_subsequence(w.drop_first(), t.drop_first())) || is_subsequence(
            w,
            t.drop_first(),
        )
    }
}

/// `w` occurs unbroken in `t`, starting at position `i`.
pub open spec fn occurs_at(w: Seq<char>, t: Seq<char>, i: int) -> bool {
    0 <= i && i + w.len() <= t.len() && t.subrange(i, i + w.len()) == w
}

/// Some non-empty word of `words` occurs unbroken in `t`.
pub open spec fn contiguous_match(words: Seq<Seq<char>>, t: Seq<char>) -> bool {
    exists|j: int, i: int|
        #![trigger words[j], occurs_at(words[j], t, i)]
        0 <= j < words.len() && words[j].len() > 0 && occurs_at(words[j], t, i)
}

/// Some non-empty word of `words` occurs in `t`, possibly with filler characters
/// between its letters.
pub open spec fn gap_match(words: Seq<Seq<char>>, t: Seq<char>) -> bool {
    exists|i: int|
        #![trigger words[i]]
        0 <= i < words.len() && words[i].len() > 0 && is_subsequence(words[i], t)
}

/// The character sequences of a list of strings.
pub open spec fn word_seqs(v: Seq<String>) -> Seq<Seq<char>> {
    v.map_values(|s: String| s@)
}

/// The words `w[0]`, `w[1]`, ... with `fillers[0]` before the first letter,
/// `fillers[k]` between letters `k - 1` and `k`, and the last filler after the end.
pub open spec fn interleave(w: Seq<char>, fillers: Seq<Seq<char>>) -> Seq<char>
    decreases w.len(),
{
    if w.len() == 0 || fillers.len() == 0 {
        if fillers.len() > 0 {
            fillers[0]
        } else {
            Seq::empty()
        }
    } else {
        fillers[0] + seq![w[0]] + interleave(w.drop_first(), fillers.drop_first())
    }
}

/// Putting characters in front of a text keeps every subsequence of it.
pub proof fn lemma_subsequence_prepend(w: Seq<char>, p: Seq<char>, t: Seq<char>)
    requires
        is_subsequence(w, t),
    ensures
        is_subsequence(w, p + t),
    decreases p.len(),
{
    if p.len() > 0 && w.len() > 0 {
        lemma_subsequence_prepend(w, p.drop_first(), t);
        assert((p + t).drop_first() =~= p.drop_first() + t);
    }
}

/// A word is a subsequence of any text that starts with it.
pub proof fn lemma_subsequence_of_prefix(w: Seq<char>, s: Seq<char>)
    ensures
        is_subsequence(w, w + s),
    decreases w.len(),
{
    if w.len() > 0 {
        lemma_subsequence_of_prefix(w.drop_first(), s);
        assert((w + s).drop_first() =~= w.drop_first() + s);
    }
}

/// A contiguous piece of a text is a subsequence of it.
pub proof fn lemma_subsequence_of_slice(t: Seq<char>, a: int, b: int)
    requires
        0 <= a <= b <= t.len(),
    ensures
        is_subsequence(t.subrange(a, b), t),
{
    let w = t.subrange(a, b);
    lemma_subsequence_of_prefix(w, t.subrange(b, t.len() as int));
    lemma_subsequence_prepend(w, t.subrange(0, a), w + t.subrange(b, t.len() as int));
    assert(t.subrange(0, a) + (w + t.subrange(b, t.len() as int)) =~= t);
}

/// Dropping the first letter of a word keeps it a subsequence.
pub proof fn lemma_subsequence_drop_first(w: Seq<char>, t: Seq<char>)
    requires
        w.len() > 0,
        is_subsequence(w, t),
    ensures
        is_subsequence(w.drop_first(), t),
    decreases t.len(),
{
    if t.len() > 0 {
        if t[0] == w[0] && is_subsequence(w.drop_first(), t.drop_first()) {
        } else {
            lemma_subsequence_drop_first(w, t.drop_first());
        }
    }
}

/// Where the text starts with the word's first letter, matching that letter
/// there loses nothing.
pub proof fn lemma_subsequence_greedy(w: Seq<char>, t: Seq<char>)
    requires
        w.len() > 0,
        t.len() > 0,
        t[0] == w[0],
    ensures
        is_subsequence(w, t) == is_subsequence(w.drop_first(), t.drop_first()),
{
    if is_subsequence(w, t.drop_first()) {
        lemma_subsequence_drop_first(w, t.drop_first());
    }
}

/// Interleaving a word's letters with filler keeps the word as a subsequence.
pub proof fn lemma_subsequence_of_interleave(w: Seq<char>, fillers: Seq<Seq<char>>)
    requires
        fillers.len() == w.len() + 1,
    ensures
        is_subsequence(w, interleave(w, fillers)),
    decreases w.len(),
{
    if w.len() > 0 {
        let rest = interleave(w.drop_first(), fillers.drop_first());
        lemma_subsequence_of_interleave(w.drop_first(), fillers.drop_first());
        assert((seq![w[0]] + rest).drop_first() =~= rest);
        lemma_subsequence_prepend(w, fillers[0], seq![w[0]] + rest);
        assert(fillers[0] + seq![w[0]] + rest =~= fillers[0] + (seq![w[0]] + rest));
    }
}

/// An unbroken occurrence is also an occurrence with (no) gaps.
pub proof fn lemma_contiguous_implies_gap(words: Seq<Seq<char>>, t: Seq<char>)
    requires
        contiguous_match(words, t),
    ensures
        gap_match(words, t),
{
    let (j, i) = choose|j: int, i: int|
        #![trigger words[j], occurs_at(words[j], t, i)]
        0 <= j < words.len() && words[j].len() > 0 && occurs_at(words[j], t, i);
    lemma_subsequence_of_slice(t, i, i + words[j].len());
    assert(words[j].len() > 0 && is_subsequence(words[j], t));
}

/// Any text holding a non-empty listed word as an unbroken substring matches.
pub proof fn law_contiguous_occurrence_matches(
    words: Seq<Seq<char>>,
    w: Seq<char>,
    before: Seq<char>,
    after: Seq<char>,
)
    requires
        words.contains(w),
        w.len() > 0,
    ensures
        gap_match(words, before + w + after),
{
    lemma_subsequence_of_prefix(w, after);
    lemma_subsequence_prepend(w, before, w + after);
    assert(before + w + after =~= before + (w + after));
    let i = choose|i: int| 0 <= i < words.len() && words[i] == w;
    assert(words[i] == w);
}

/// Any text that spells a non-empty listed word in order, with arbitrary filler
/// characters around and between its letters, matches.
pub proof fn law_interleaved_occurrence_matches(
    words: Seq<Seq<char>>,
    w: Seq<char>,
    fillers: Seq<Seq<char>>,
)
    requires
        words.contains(w),
        w.len() > 0,
        fillers.len() == w.len() + 1,
    ensures
        gap_match(words, interleave(w, fillers)),
{
    lemma_subsequence_of_interleave(w, fillers);
    let i = choose|i: int| 0 <= i < words.len() && words[i] == w;
    assert(words[i] == w);
}

/// Listing again a word that is already listed changes no verdict.
pub proof fn law_repeated_word_is_harmless(words: Seq<Seq<char>>, w: Seq<char>, t: Seq<char>)
    requires
        words.contains(w),
    ensures
        gap_match(words.push(w), t) == gap_match(words, t),
{
    let more = words.push(w);
    if gap_match(more, t) {
        let i = choose|i: int|
            #![trigger more[i]]
            0 <= i < more.len() && more[i].len() > 0 && is_subsequence(more[i], t);
        if i == words.len() {
            let j = choose|j: int| 0 <= j < words.len() && words[j] == w;
            assert(words[j] == more[i]);
        } else {
            assert(words[i] == more[i]);
        }
    }
    if gap_match(words, t) {
        let i = choose|i: int|
            #![trigger words[i]]
            0 <= i < words.len() && words[i].len() > 0 && is_subsequence(words[i], t);
        assert(more[i] == words[i]);
    }
}

/// Listing the empty word changes no verdict.
pub proof fn law_empty_word_is_harmless(words: Seq<Seq<char>>, t: Seq<char>)
    ensures
        gap_match(words.push(Seq::empty()), t) == gap_match(words, t),
{
    let more = words.push(Seq::empty());
    if gap_match(more, t) {
        let i = choose|i: int|
            #![trigger more[i]]
            0 <= i < more.len() && more[i].len() > 0 && is_subsequence(more[i], t);
        assert(words[i] == more[i]);
    }
    if gap_match(words, t) {
        let i = choose|i: int|
            #![trigger words[i]]
            0 <= i < words.len() && words[i].len() > 0 && is_subsequence(words[i], t);
        assert(more[i] == words[i]);
    }
}

/// The empty text matches no word list.
pub proof fn law_empty_text_never_matches(words: Seq<Seq<char>>)
    ensures
        !gap_match(words, Seq::empty()),
{
}

} // verus!
