//! Bidirectional vocabulary: a table of `(token, id)` pairs in which both
//! the token strings and the ids are unique, so that the two lookup
//! directions are exact inverses of each other.

use vstd::prelude::*;
use crate::token::ModelError;

verus! {

/// First-match lookup of a token's id in a pair table.
pub open spec fn spec_lookup_id(es: Seq<(String, u32)>, t: Seq<char>) -> Option<u32>
    decreases es.len(),
{
    if es.len() == 0 {
        None
    } else if es[0].0@ == t {
        Some(es[0].1)
    } else {
        spec_lookup_id(es.drop_first(), t)
    }
}

/// First-match lookup of an id's token in a pair table.
pub open spec fn spec_lookup_token(es: Seq<(String, u32)>, id: u32) -> Option<Seq<char>>
    decreases es.len(),
{
    if es.len() == 0 {
        None
    } else if es[0].1 == id {
        Some(es[0].0@)
    } else {
        spec_lookup_token(es.drop_first(), id)
    }
}

/// All token strings of the table are distinct, and so are all ids.
pub open spec fn spec_entries_distinct(es: Seq<(String, u32)>) -> bool {
    forall|i: int, j: int| #![trigger es[i], es[j]]
        0 <= i < j < es.len() ==> es[i].0@ != es[j].0@ && es[i].1 != es[j].1
}

/// A bidirectional string/id table. Built once, then read-only.
#[derive(Clone, Debug)]
pub struct Vocab {
    pub entries: Vec<(String, u32)>,
}

impl Vocab {
    /// Well-formedness: no duplicate token and no duplicate id.
    pub open spec fn wf(self) -> bool {
        spec_entries_distinct(self.entries@)
    }

    pub open spec fn spec_token_to_id(self, t: Seq<char>) -> Option<u32> {
        spec_lookup_id(self.entries@, t)
    }

    pub open spec fn spec_id_to_token(self, id: u32) -> Option<Seq<char>> {
        spec_lookup_token(self.entries@, id)
    }

    /// Builds a vocabulary from a pair list, rejecting any duplicate token
    /// string or duplicate id.
    pub fn new_checked(entries: Vec<(String, u32)>) -> (r: Result<Vocab, ModelError>)
        ensures
            match r {
                Ok(v) => v.wf() && v.entries@ == entries@,
                Err(e) => e == ModelError::Construction && !spec_entries_distinct(entries@),
            },
    {
        let n = entries.len();
        for i in 0..n
            invariant
                n == entries.len(),
                forall|a: int, b: int| #![trigger entries@[a], entries@[b]]
                    0 <= a < b < entries@.len() && a < i ==>
                        entries@[a].0@ != entries@[b].0@ && entries@[a].1 != entries@[b].1,
        {
            for j in (i + 1)..n
                invariant
                    n == entries.len(),
                    i < n,
                    forall|a: int, b: int| #![trigger entries@[a], entries@[b]]
                        0 <= a < b < entries@.len() && a < i ==>
                            entries@[a].0@ != entries@[b].0@ && entries@[a].1 != entries@[b].1,
                    forall|b: int| #![trigger entries@[b]]
                        i < b < j ==>
                            entries@[b].0@ != entries@[i as int].0@
                            && entries@[b].1 != entries@[i as int].1,
            {
                let same_tok = entries[i].0 == entries[j].0;
                if same_tok || entries[i].1 == entries[j].1 {
                    proof {
                        assert(entries@[i as int].0@ == entries@[j as int].0@
                            || entries@[i as int].1 == entries@[j as int].1);
                        assert(!spec_entries_distinct(entries@));
                    }
                    return Err(ModelError::Construction);
                }
            }
        }
        Ok(Vocab { entries })
    }

    /// The id of a token, if the token is in the vocabulary.
    pub fn token_to_id(&self, token: &String) -> (r: Option<u32>)
        ensures
            r == self.spec_token_to_id(token@),
    {
        let n = self.entries.len();
        proof {
            assert(self.entries@.skip(0) =~= self.entries@);
        }
        for i in 0..n
            invariant
                n == self.entries.len(),
                spec_lookup_id(self.entries@.skip(i as int), token@)
                    == spec_lookup_id(self.entries@, token@),
        {
            proof {
                assert(self.entries@.skip(i as int)[0] == self.entries@[i as int]);
                assert(self.entries@.skip(i as int).drop_first()
                    =~= self.entries@.skip(i + 1));
            }
            if self.entries[i].0 == *token {
                return Some(self.entries[i].1);
            }
        }
        None
    }

    /// The token of an id, if some entry carries that id.
    pub fn id_to_token(&self, id: u32) -> (r: Option<String>)
        ensures
            match r {
                Some(s) => self.spec_id_to_token(id) == Some(s@),
                None => self.spec_id_to_token(id) is None,
            },
    {
        let n = self.entries.len();
        proof {
            assert(self.entries@.skip(0) =~= self.entries@);
        }
        for i in 0..n
            invariant
                n == self.entries.len(),
                spec_lookup_token(self.entries@.skip(i as int), id)
                    == spec_lookup_token(self.entries@, id),
        {
            proof {
                assert(self.entries@.skip(i as int)[0] == self.entries@[i as int]);
                assert(self.entries@.skip(i as int).drop_first()
                    =~= self.entries@.skip(i + 1));
            }
            if self.entries[i].1 == id {
                return Some(self.entries[i].0.clone());
            }
        }
        None
    }

    /// A copy of the whole table.
    pub fn get_vocab(&self) -> (r: Vec<(String, u32)>)
        ensures
            r@ == self.entries@,
    {
        let mut out: Vec<(String, u32)> = Vec::new();
        let n = self.entries.len();
        for i in 0..n
            invariant
                n == self.entries.len(),
                out@ =~= self.entries@.take(i as int),
        {
            out.push((self.entries[i].0.clone(), self.entries[i].1));
        }
        proof {
            assert(self.entries@.take(n as int) =~= self.entries@);
        }
        out
    }

    pub fn get_vocab_size(&self) -> (r: usize)
        ensures
            r == self.entries@.len(),
    {
        self.entries.len()
    }
}

/// In a well-formed table the two lookup directions agree entry for entry.
proof fn lemma_lookup_inverse_step(es: Seq<(String, u32)>, t: Seq<char>, id: u32)
    requires
        spec_entries_distinct(es),
    ensures
        spec_lookup_id(es, t) == Some(id) ==> spec_lookup_token(es, id) == Some(t),
        spec_lookup_token(es, id) == Some(t) ==> spec_lookup_id(es, t) == Some(id),
    decreases es.len(),
{
    if es.len() > 0 {
        assert forall|a: int, b: int|
            0 <= a < b < es.drop_first().len() implies
            #[trigger] es.drop_first()[a].0@ != #[trigger] es.drop_first()[b].0@
            && es.drop_first()[a].1 != es.drop_first()[b].1 by {
            assert(es.drop_first()[a] == es[a + 1]);
            assert(es.drop_first()[b] == es[b + 1]);
        }
        lemma_lookup_inverse_step(es.drop_first(), t, id);
        if es[0].0@ == t && es[0].1 != id {
            assert forall|i: int| 0 <= i < es.drop_first().len() implies
                #[trigger] es.drop_first()[i].0@ != t by {
                assert(es.drop_first()[i] == es[i + 1]);
            }
            lemma_lookup_absent_token(es.drop_first(), t);
        }
        if es[0].1 == id && es[0].0@ != t {
            assert forall|i: int| 0 <= i < es.drop_first().len() implies
                #[trigger] es.drop_first()[i].1 != id by {
                assert(es.drop_first()[i] == es[i + 1]);
            }
            lemma_lookup_absent_id(es.drop_first(), id);
        }
    }
}

/// If a token string occurs nowhere in the table, its id lookup fails.
proof fn lemma_lookup_absent_token(es: Seq<(String, u32)>, t: Seq<char>)
    requires
        forall|i: int| 0 <= i < es.len() ==> #[trigger] es[i].0@ != t,
    ensures
        spec_lookup_id(es, t) is None,
    decreases es.len(),
{
    if es.len() > 0 {
        assert forall|i: int| 0 <= i < es.drop_first().len() implies
            #[trigger] es.drop_first()[i].0@ != t by {
            assert(es.drop_first()[i] == es[i + 1]);
        }
        lemma_lookup_absent_token(es.drop_first(), t);
    }
}

/// If an id occurs nowhere in the table, its token lookup fails.
proof fn lemma_lookup_absent_id(es: Seq<(String, u32)>, id: u32)
    requires
        forall|i: int| 0 <= i < es.len() ==> #[trigger] es[i].1 != id,
    ensures
        spec_lookup_token(es, id) is None,
    decreases es.len(),
{
    if es.len() > 0 {
        assert forall|i: int| 0 <= i < es.drop_first().len() implies
            #[trigger] es.drop_first()[i].1 != id by {
            assert(es.drop_first()[i] == es[i + 1]);
        }
        lemma_lookup_absent_id(es.drop_first(), id);
    }
}

/// Tables equal entry for entry, as text and id, look tokens up alike.
pub proof fn lemma_lookup_id_congruent(es1: Seq<(String, u32)>, es2: Seq<(String, u32)>, t: Seq<char>)
    requires
        es1.len() == es2.len(),
        forall|i: int| 0 <= i < es1.len() ==> (#[trigger] es1[i]).0@ == es2[i].0@
            && es1[i].1 == es2[i].1,
    ensures
        spec_lookup_id(es1, t) == spec_lookup_id(es2, t),
    decreases es1.len(),
{
    if es1.len() > 0 {
        assert forall|i: int| 0 <= i < es1.drop_first().len() implies
            (#[trigger] es1.drop_first()[i]).0@ == es2.drop_first()[i].0@
            && es1.drop_first()[i].1 == es2.drop_first()[i].1 by {
            assert(es1.drop_first()[i] == es1[i + 1]);
            assert(es2.drop_first()[i] == es2[i + 1]);
        }
        lemma_lookup_id_congruent(es1.drop_first(), es2.drop_first(), t);
    }
}

/// Law: in a well-formed vocabulary the string-to-id and id-to-string maps
/// are exact inverses: a token maps to an id exactly when that id maps back
/// to the same token.
pub proof fn lemma_vocab_bijective(v: Vocab, t: Seq<char>, id: u32)
    requires
        v.wf(),
    ensures
        v.spec_token_to_id(t) == Some(id) <==> v.spec_id_to_token(id) == Some(t),
{
    lemma_lookup_inverse_step(v.entries@, t, id);
}

} // verus!
