use vstd::prelude::*;

verus! {

/// A transition `(from, character, to)` of an automaton.
pub type Edge = (usize, char, usize);

/// No two transitions leave the same state on the same character.
pub open spec fn keys_unique(edges: Seq<Edge>) -> bool {
    forall|i: int, j: int|
        #![trigger edges[i], edges[j]]
        0 <= i < j < edges.len() ==> !(edges[i].0 == edges[j].0 && edges[i].1 == edges[j].1)
}

/// The state reached from `s` on `c`, if a transition exists.
pub open spec fn step_spec(edges: Seq<Edge>, s: usize, c: char) -> Option<usize> {
    if exists|k: int| #![trigger edges[k]] 0 <= k < edges.len() && edges[k].0 == s && edges[k].1 == c {
        let k = choose|k: int|
            #![trigger edges[k]]
            0 <= k < edges.len() && edges[k].0 == s && edges[k].1 == c;
        Some(edges[k].2)
    } else {
        None
    }
}

/// The state reached from `s` by following the transitions along `w`, if every
/// one of them exists.
pub open spec fn walk(edges: Seq<Edge>, s: usize, w: Seq<char>) -> Option<usize>
    decreases w.len(),
{
    if w.len() == 0 {
        Some(s)
    } else {
        match walk(edges, s, w.drop_last()) {
            Some(x) => step_spec(edges, x, w.last()),
            None => None,
        }
    }
}

/// Length of the longest prefix of `w` that can be walked from the root.
pub open spec fn known_prefix_len(edges: Seq<Edge>, w: Seq<char>) -> nat
    decreases w.len(),
{
    if w.len() == 0 || walk(edges, 0, w) is Some {
        w.len()
    } else {
        known_prefix_len(edges, w.drop_last())
    }
}

pub proof fn lemma_step_of_edge(edges: Seq<Edge>, k: int)
    requires
        keys_unique(edges),
        0 <= k < edges.len(),
    ensures
        step_spec(edges, edges[k].0, edges[k].1) == Some(edges[k].2),
{
    let s = edges[k].0;
    let c = edges[k].1;
    assert(edges[k].0 == s && edges[k].1 == c);
    let k2 = choose|k2: int|
        #![trigger edges[k2]]
        0 <= k2 < edges.len() && edges[k2].0 == s && edges[k2].1 == c;
    if k2 < k {
        assert(!(edges[k2].0 == edges[k].0 && edges[k2].1 == edges[k].1));
    } else if k < k2 {
        assert(!(edges[k].0 == edges[k2].0 && edges[k].1 == edges[k2].1));
    }
}

/// Adding transitions keeps every step that already existed.
pub proof fn lemma_step_extend(edges: Seq<Edge>, more: Seq<Edge>, s: usize, c: char)
    requires
        keys_unique(more),
        edges.len() <= more.len(),
        more.subrange(0, edges.len() as int) == edges,
        step_spec(edges, s, c) is Some,
    ensures
        step_spec(more, s, c) == step_spec(edges, s, c),
{
    let k = choose|k: int|
        #![trigger edges[k]]
        0 <= k < edges.len() && edges[k].0 == s && edges[k].1 == c;
    assert(more[k] == more.subrange(0, edges.len() as int)[k]);
    lemma_step_of_edge(more, k);
}

/// Adding transitions keeps every walk that already existed.
pub proof fn lemma_walk_extend(edges: Seq<Edge>, more: Seq<Edge>, s: usize, w: Seq<char>)
    requires
        keys_unique(more),
        edges.len() <= more.len(),
        more.subrange(0, edges.len() as int) == edges,
        walk(edges, s, w) is Some,
    ensures
        walk(more, s, w) == walk(edges, s, w),
    decreases w.len(),
{
    if w.len() > 0 {
        lemma_walk_extend(edges, more, s, w.drop_last());
        let x = walk(edges, s, w.drop_last())->0;
        lemma_step_extend(edges, more, x, w.last());
    }
}

/// Every prefix of a word that can be walked can be walked too.
pub proof fn lemma_walk_prefix(edges: Seq<Edge>, s: usize, w: Seq<char>, n: int)
    requires
        walk(edges, s, w) is Some,
        0 <= n <= w.len(),
    ensures
        walk(edges, s, w.subrange(0, n)) is Some,
    decreases w.len() - n,
{
    if n == w.len() {
        assert(w.subrange(0, n) =~= w);
    } else {
        lemma_walk_prefix(edges, s, w, n + 1);
        assert(w.subrange(0, n + 1).drop_last() =~= w.subrange(0, n));
    }
}

/// Walking one more character is one more step.
pub proof fn lemma_walk_push(edges: Seq<Edge>, s: usize, w: Seq<char>, c: char)
    ensures
        walk(edges, s, w.push(c)) == match walk(edges, s, w) {
            Some(x) => step_spec(edges, x, c),
            None => None,
        },
{
    assert(w.push(c).drop_last() =~= w);
}

} // verus!
