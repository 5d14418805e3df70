//! Properties that hold across calls of the trie's operations.
//!
//! `add_word_mut` turns the view `t@` into `t@.insert(word@)`, `search`
//! answers `t@.contains(query@)`, and `predict` / `predict_by_key` list
//! `completions` / `completions_by`; the laws below are stated over those.
use vstd::prelude::*;

use crate::trie::{may_start_like, must_start_like, Trie};

verus! {

/// The stored words after inserting each word of `ws`, in order, into a
/// trie that stored `s`.
pub open spec fn after_inserting(s: Set<Seq<char>>, ws: Seq<Seq<char>>) -> Set<Seq<char>>
    decreases ws.len(),
{
    if ws.len() == 0 {
        s
    } else {
        after_inserting(s.insert(ws[0]), ws.drop_first())
    }
}

/// Inserting a list of words adds exactly the words of the list.
pub proof fn lemma_after_inserting(s: Set<Seq<char>>, ws: Seq<Seq<char>>)
    ensures
        after_inserting(s, ws) == s + ws.to_set(),
    decreases ws.len(),
{
    if ws.len() > 0 {
        lemma_after_inserting(s.insert(ws[0]), ws.drop_first());
        assert forall|x: Seq<char>| ws.contains(x) == (x == ws[0] || ws.drop_first().contains(x)) by {
            if ws.contains(x) && x != ws[0] {
                let k = choose|k: int| 0 <= k < ws.len() && ws[k] == x;
                assert(ws.drop_first()[k - 1] == x);
            }
            if ws.drop_first().contains(x) {
                let k = choose|k: int| 0 <= k < ws.len() - 1 && ws.drop_first()[k] == x;
                assert(ws[k + 1] == x);
            }
            if x == ws[0] {
                assert(ws.contains(ws[0]));
            }
        }
    }
    assert(after_inserting(s, ws) =~= s + ws.to_set());
}

/// Inserting one word `n >= 1` times leaves the same words, and so the same
/// search and predict answers for every query, as inserting it once.
pub proof fn lemma_insert_idempotent<F: Fn(char, char) -> bool>(
    once: Trie,
    many: Trie,
    s: Set<Seq<char>>,
    w: Seq<char>,
    n: nat,
    key: F,
)
    requires
        n >= 1,
        once@ == after_inserting(s, seq![w]),
        many@ == after_inserting(s, Seq::new(n, |_i: int| w)),
    ensures
        many@ == once@,
        forall|q: Seq<char>| many@.contains(q) == once@.contains(q),
        forall|q: Seq<char>| #[trigger] many.completions(q) == once.completions(q),
        forall|q: Seq<char>| #[trigger] many.sure_completions_by(q, key) == once.sure_completions_by(q, key),
        forall|q: Seq<char>|
            #[trigger] many.possible_completions_by(q, key) == once.possible_completions_by(q, key),
{
    lemma_after_inserting(s, seq![w]);
    lemma_after_inserting(s, Seq::new(n, |_i: int| w));
    assert(seq![w].to_set() =~= Seq::new(n, |_i: int| w).to_set()) by {
        assert(Seq::new(n, |_i: int| w)[0] == w);
        assert(seq![w][0] == w);
    }
}

/// After inserting every word of `ws` into an empty trie, each of them is
/// found by `search`.
pub proof fn lemma_round_trip(t: Trie, ws: Seq<Seq<char>>)
    requires
        t@ == after_inserting(Set::empty(), ws),
    ensures
        forall|k: int| 0 <= k < ws.len() ==> t@.contains(#[trigger] ws[k]),
{
    lemma_after_inserting(Set::empty(), ws);
    assert forall|k: int| 0 <= k < ws.len() implies t@.contains(#[trigger] ws[k]) by {
        assert(ws.contains(ws[k]));
    }
}

/// After inserting the words of `ws` into an empty trie, a query that is
/// none of them, the empty query included, is not found by `search`.
pub proof fn lemma_negative_search(t: Trie, ws: Seq<Seq<char>>, q: Seq<char>)
    requires
        t@ == after_inserting(Set::empty(), ws),
        !ws.contains(q),
    ensures
        !t@.contains(q),
{
    lemma_after_inserting(Set::empty(), ws);
}

/// A stored word is among the predictions of each of its prefixes.
pub proof fn lemma_prefix_sound(t: Trie, w: Seq<char>, q: Seq<char>)
    requires
        t@.contains(w),
        q.is_prefix_of(w),
    ensures
        t.completions(q).contains(w),
{
}

/// A stored word that surely begins with `q` under `key` is among the
/// predictions by `key` of `q`.
pub proof fn lemma_prefix_sound_by_key<F: Fn(char, char) -> bool>(
    t: Trie,
    w: Seq<char>,
    q: Seq<char>,
    key: F,
)
    requires
        t@.contains(w),
        must_start_like(key, q, w),
    ensures
        t.sure_completions_by(q, key).contains(w),
{
}

/// Every prediction of `q` is a stored word that starts with `q`, and every
/// prediction by `key` is a stored word that may begin with `q` under `key`.
pub proof fn lemma_prefix_closed<F: Fn(char, char) -> bool>(t: Trie, q: Seq<char>, w: Seq<char>, key: F)
    ensures
        t.completions(q).contains(w) ==> t@.contains(w) && q.is_prefix_of(w),
        t.possible_completions_by(q, key).contains(w) ==> t@.contains(w) && may_start_like(key, q, w),
{
}

/// The predictions of the empty query are all the stored words.
pub proof fn lemma_empty_query(t: Trie)
    ensures
        t.completions(Seq::empty()) == t@,
{
    assert forall|w: Seq<char>| Seq::<char>::empty().is_prefix_of(w) by {
        assert(Seq::<char>::empty() =~= w.subrange(0, 0));
    }
    assert(t.completions(Seq::empty()) =~= t@);
}

/// When no stored word starts with `q`, nothing is predicted for `q`, and
/// `q` itself is not found.
pub proof fn lemma_no_match(t: Trie, q: Seq<char>)
    requires
        forall|w: Seq<char>| t@.contains(w) ==> !q.is_prefix_of(w),
    ensures
        t.completions(q) == Set::<Seq<char>>::empty(),
        !t@.contains(q),
{
    assert(q.is_prefix_of(q)) by {
        assert(q =~= q.subrange(0, q.len() as int));
    }
    assert(t.completions(q) =~= Set::<Seq<char>>::empty());
}

} // verus!
