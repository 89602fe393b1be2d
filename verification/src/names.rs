//! The display names of the players.

use crate::ids::ID;
use crate::members::{
    ascending, enrol, lemma_enrol, lemma_seat, lemma_seat_of_member, seat, seat_of, tokens,
};
use vstd::prelude::*;

verus! {

/// The display name of each player that was named, by the player's token.
#[derive(Debug)]
pub struct NameBook {
    ids: Vec<ID>,
    labels: Vec<String>,
}

impl View for NameBook {
    type V = Map<Seq<u8>, Seq<char>>;

    closed spec fn view(&self) -> Map<Seq<u8>, Seq<char>> {
        Map::new(
            |t: Seq<u8>| tokens(self.ids@).contains(t),
            |t: Seq<u8>| self.labels@[seat(tokens(self.ids@), t)]@,
        )
    }
}

impl NameBook {
    /// The book's invariant: the players are held in ascending order, each
    /// with one name.
    pub closed spec fn wf(&self) -> bool {
        &&& ascending(tokens(self.ids@))
        &&& self.ids@.len() == self.labels@.len()
    }

    /// A book without names.
    pub fn new() -> (book: Self)
        ensures
            book.wf(),
            book@ == Map::<Seq<u8>, Seq<char>>::empty(),
    {
        let book = NameBook { ids: Vec::new(), labels: Vec::new() };
        assert(book@ =~= Map::<Seq<u8>, Seq<char>>::empty());
        book
    }

    /// Names the player `id`. A player named before gets the new name.
    pub fn record(&mut self, id: ID, name: String)
        requires
            old(self).wf(),
        ensures
            final(self).wf(),
            final(self)@ == old(self)@.insert(id@, name@),
    {
        let ghost before = tokens(self.ids@);
        let ghost labels = self.labels@;
        let ghost was = self@;
        let ghost token = id@;
        let ghost text = name@;
        let (k, found) = seat_of(&self.ids, &id);
        proof {
            lemma_seat(before, token);
            lemma_enrol(before, token);
        }
        if found {
            self.labels.set(k, name);
        } else {
            self.ids.insert(k, id);
            self.labels.insert(k, name);
        }
        proof {
            let after = tokens(self.ids@);
            assert(after =~= enrol(before, token));
            assert forall|t: Seq<u8>| #[trigger]
                self@.dom().contains(t) <==> was.insert(token, text).dom().contains(t) by {}
            assert forall|t: Seq<u8>| #[trigger] self@.dom().contains(t) implies self@[t]
                == was.insert(token, text)[t] by {
                lemma_seat_of_member(after, t);
                lemma_seat(after, t);
                if t != token {
                    lemma_seat_of_member(before, t);
                    lemma_seat(before, t);
                    let i = seat(before, t);
                    let j = if found || i < k {
                        i
                    } else {
                        i + 1
                    };
                    assert(after[j] == t);
                }
            }
            assert(self@ =~= was.insert(token, text));
        }
    }

    /// The name of the player `id`, if the player was named.
    pub fn label(&self, id: &ID) -> (name: Option<&String>)
        requires
            self.wf(),
        ensures
            name is Some <==> self@.dom().contains(id@),
            name matches Some(text) ==> text@ == self@[id@],
    {
        let (k, found) = seat_of(&self.ids, id);
        proof {
            lemma_seat(tokens(self.ids@), id@);
            lemma_seat_of_member(tokens(self.ids@), id@);
        }
        if found {
            Some(&self.labels[k])
        } else {
            None
        }
    }
}

} // verus!
