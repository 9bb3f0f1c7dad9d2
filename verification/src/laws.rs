//! Laws of the dictionary index, stated over its mathematical model: the set
//! `words()` that `Trie::new`, `Trie::insert` and `Trie::contains` speak of
//! in their contracts.

use crate::trie::Trie;
use vstd::prelude::*;

verus! {

/// Inserting a word makes it a member at once, and it stays a member after
/// any further insertion.
pub proof fn lemma_insert_establishes_membership(
    before: Trie,
    after: Trie,
    later: Trie,
    w: Seq<char>,
    v: Seq<char>,
)
    requires
        after.words() == before.words().insert(w),
        later.words() == after.words().insert(v),
    ensures
        after.words().contains(w),
        later.words().contains(w),
{
}

/// A word that was never inserted is never a member: an empty index holds
/// nothing, and each insertion adds no word but its own.
pub proof fn lemma_insert_adds_nothing_else(before: Trie, after: Trie, v: Seq<char>, w: Seq<char>)
    requires
        after.words() == before.words().insert(v),
        w != v,
        !before.words().contains(w),
    ensures
        !after.words().contains(w),
{
}

/// Inserting the same word twice leaves the index exactly as one insertion
/// does: insertion is idempotent.
pub proof fn lemma_insert_idempotent(before: Trie, once: Trie, twice: Trie, w: Seq<char>)
    requires
        once.words() == before.words().insert(w),
        twice.words() == once.words().insert(w),
    ensures
        twice.words() == once.words(),
{
    assert(twice.words() =~= once.words());
}

/// A proper prefix of a stored word is itself no member unless it was
/// inserted in its own right: the index holds exactly what was inserted.
pub proof fn lemma_prefix_not_member(t: Trie, inserted: Set<Seq<char>>, w: Seq<char>, p: Seq<char>)
    requires
        t.words() == inserted,
        inserted.contains(w),
        p.len() < w.len(),
        p == w.take(p.len() as int),
        !inserted.contains(p),
    ensures
        !t.words().contains(p),
{
}

} // verus!
