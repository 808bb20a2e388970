//! Edit streams: the common currency between the normalizers and the
//! normalized string. One edit consumes `take` characters of the current
//! text and emits the characters of `emit` in their place; `take == 0`
//! inserts, an empty `emit` deletes.

use vstd::prelude::*;

verus! {

/// One step of a text rewrite: consume `take` characters, emit `emit`.
#[derive(Clone, Debug)]
pub struct Edit {
    pub take: usize,
    pub emit: Vec<char>,
}

impl Edit {
    /// Replace `take` characters by the characters of `emit`.
    pub fn replacing(take: usize, emit: Vec<char>) -> (e: Edit)
        ensures
            e.take == take,
            e.emit == emit,
    {
        Edit { take, emit }
    }

    /// Keep one character as it is.
    pub fn keeping(c: char) -> (e: Edit)
        ensures
            e.take == 1,
            e.emit@ =~= seq![c],
    {
        let mut v: Vec<char> = Vec::new();
        v.push(c);
        Edit { take: 1, emit: v }
    }

    /// Delete one character.
    pub fn deleting() -> (e: Edit)
        ensures
            e.take == 1,
            e.emit@ =~= Seq::<char>::empty(),
    {
        Edit { take: 1, emit: Vec::new() }
    }

    /// Insert one character, consuming nothing.
    pub fn inserting(c: char) -> (e: Edit)
        ensures
            e.take == 0,
            e.emit@ =~= seq![c],
    {
        let mut v: Vec<char> = Vec::new();
        v.push(c);
        Edit { take: 0, emit: v }
    }
}

/// Total number of characters an edit stream consumes.
pub open spec fn edits_take_sum(es: Seq<Edit>) -> int
    decreases es.len(),
{
    if es.len() == 0 {
        0
    } else {
        es[0].take + edits_take_sum(es.drop_first())
    }
}

/// The text an edit stream emits.
pub open spec fn edits_output(es: Seq<Edit>) -> Seq<char>
    decreases es.len(),
{
    if es.len() == 0 {
        Seq::<char>::empty()
    } else {
        es[0].emit@ + edits_output(es.drop_first())
    }
}

pub proof fn lemma_take_sum_nonneg(es: Seq<Edit>)
    ensures
        edits_take_sum(es) >= 0,
    decreases es.len(),
{
    if es.len() > 0 {
        lemma_take_sum_nonneg(es.drop_first());
    }
}

pub proof fn lemma_take_sum_push(es: Seq<Edit>, e: Edit)
    ensures
        edits_take_sum(es.push(e)) == edits_take_sum(es) + e.take,
    decreases es.len(),
{
    if es.len() == 0 {
        assert(es.push(e)[0] == e);
        assert(es.push(e).drop_first() =~= Seq::<Edit>::empty());
        assert(edits_take_sum(Seq::<Edit>::empty()) == 0);
    } else {
        assert(es.push(e)[0] == es[0]);
        assert(es.push(e).drop_first() =~= es.drop_first().push(e));
        lemma_take_sum_push(es.drop_first(), e);
    }
}

pub proof fn lemma_output_push(es: Seq<Edit>, e: Edit)
    ensures
        edits_output(es.push(e)) == edits_output(es) + e.emit@,
    decreases es.len(),
{
    if es.len() == 0 {
        assert(es.push(e)[0] == e);
        assert(es.push(e).drop_first() =~= Seq::<Edit>::empty());
        assert(edits_output(es.push(e)) == e.emit@ + edits_output(Seq::<Edit>::empty()));
        assert(e.emit@ + Seq::<char>::empty() =~= edits_output(es) + e.emit@);
    } else {
        assert(es.push(e)[0] == es[0]);
        assert(es.push(e).drop_first() =~= es.drop_first().push(e));
        lemma_output_push(es.drop_first(), e);
        assert(edits_output(es.push(e)) == es[0].emit@ + (edits_output(es.drop_first()) + e.emit@));
        assert(es[0].emit@ + (edits_output(es.drop_first()) + e.emit@)
            =~= (es[0].emit@ + edits_output(es.drop_first())) + e.emit@);
    }
}

/// Splitting an edit stream splits its consumption count.
pub proof fn lemma_take_sum_split(es: Seq<Edit>, k: int)
    requires
        0 <= k <= es.len(),
    ensures
        edits_take_sum(es) == edits_take_sum(es.take(k)) + edits_take_sum(es.skip(k)),
    decreases k,
{
    if k == 0 {
        assert(es.take(0) =~= Seq::<Edit>::empty());
        assert(es.skip(0) =~= es);
    } else {
        lemma_take_sum_split(es, k - 1);
        assert(es.take(k) =~= es.take(k - 1).push(es[k - 1]));
        lemma_take_sum_push(es.take(k - 1), es[k - 1]);
        assert(es.skip(k - 1).drop_first() =~= es.skip(k));
        assert(edits_take_sum(es.skip(k - 1)) == es[k - 1].take + edits_take_sum(es.skip(k)));
    }
}

/// What a prefix of the stream consumes, plus the next edit, stays within
/// the whole stream's consumption.
pub proof fn lemma_take_sum_prefix_bound(es: Seq<Edit>, k: int)
    requires
        0 <= k < es.len(),
    ensures
        edits_take_sum(es.take(k)) + es[k].take <= edits_take_sum(es),
        edits_take_sum(es.take(k + 1)) == edits_take_sum(es.take(k)) + es[k].take,
{
    lemma_take_sum_split(es, k + 1);
    assert(es.take(k + 1) =~= es.take(k).push(es[k]));
    lemma_take_sum_push(es.take(k), es[k]);
    lemma_take_sum_nonneg(es.skip(k + 1));
}

/// Extending the processed prefix extends the emitted text.
pub proof fn lemma_output_prefix_step(es: Seq<Edit>, k: int)
    requires
        0 <= k < es.len(),
    ensures
        edits_output(es.take(k + 1)) == edits_output(es.take(k)) + es[k].emit@,
{
    assert(es.take(k + 1) =~= es.take(k).push(es[k]));
    lemma_output_push(es.take(k), es[k]);
}

} // verus!
