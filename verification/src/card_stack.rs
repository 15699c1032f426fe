//! Data type used to store the treasure cards and the flood cards.

use vstd::prelude::*;

use rand::seq::SliceRandom;

verus! {

/// Card stack holding the draw stack and the discard stack of one card
/// type. The last element of the draw stack is its top card.
pub struct CardStack<T> {
    draw_stack: Vec<T>,
    discard_stack: Vec<T>,
}

/// Relies on rand's `SliceRandom::shuffle`: a Fisher-Yates shuffle that
/// permutes the slice in place by swapping elements, so the new contents
/// are a permutation of the old.
#[verifier::external_body]
fn shuffle_in_place<T>(items: &mut Vec<T>)
    ensures
        final(items)@.len() == old(items)@.len(),
        final(items)@.to_multiset() == old(items)@.to_multiset(),
{
    items.shuffle(&mut rand::thread_rng());
}

impl<T> CardStack<T> {
    /// The cards of the draw stack, bottom first.
    pub closed spec fn spec_draw(&self) -> Seq<T> {
        self.draw_stack@
    }

    /// The cards of the discard stack, bottom first.
    pub closed spec fn spec_discard(&self) -> Seq<T> {
        self.discard_stack@
    }

    /// Create a new card stack with the given draw stack. Does not shuffle
    /// the cards; that must be done separately, so a stack can be loaded
    /// from a file as it is.
    pub fn new(draw_stack: Vec<T>) -> (r: CardStack<T>)
        ensures
            r.spec_draw() == draw_stack@,
            r.spec_discard() == Seq::<T>::empty(),
    {
        let r = CardStack { draw_stack, discard_stack: Vec::new() };
        proof {
            assert(r.spec_discard() =~= Seq::<T>::empty());
        }
        r
    }

    /// The discard pile, which may be looked into.
    pub fn discard_stack(&self) -> (r: &Vec<T>)
        ensures
            r@ == self.spec_discard(),
    {
        &self.discard_stack
    }

    /// Draw the top card from the draw stack, or `None` if no cards are
    /// left on it.
    pub fn draw_card(&mut self) -> (r: Option<T>)
        ensures
            old(self).spec_draw().len() == 0 ==> r is None && final(self).spec_draw() == old(
                self,
            ).spec_draw(),
            old(self).spec_draw().len() > 0 ==> r == Some(old(self).spec_draw().last())
                && final(self).spec_draw() == old(self).spec_draw().drop_last(),
            final(self).spec_discard() == old(self).spec_discard(),
    {
        self.draw_stack.pop()
    }

    /// Put a card on the discard pile.
    pub fn discard_card(&mut self, card: T)
        ensures
            final(self).spec_draw() == old(self).spec_draw(),
            final(self).spec_discard() == old(self).spec_discard().push(card),
    {
        self.discard_stack.push(card)
    }

    /// Shuffle the draw stack. The discard pile is not touched.
    pub fn shuffle(&mut self)
        ensures
            final(self).spec_draw().len() == old(self).spec_draw().len(),
            final(self).spec_draw().to_multiset() == old(self).spec_draw().to_multiset(),
            final(self).spec_discard() == old(self).spec_discard(),
    {
        shuffle_in_place(&mut self.draw_stack);
    }

    /// Shuffle the discard pile and put it on top of the draw stack. The
    /// cards already on the draw stack keep their order below it.
    pub fn shuffle_back(&mut self)
        ensures
            final(self).spec_draw().len() == old(self).spec_draw().len() + old(
                self,
            ).spec_discard().len(),
            final(self).spec_draw().take(old(self).spec_draw().len() as int) == old(
                self,
            ).spec_draw(),
            final(self).spec_draw().to_multiset() == old(self).spec_draw().to_multiset().add(
                old(self).spec_discard().to_multiset(),
            ),
            final(self).spec_discard() == Seq::<T>::empty(),
    {
        shuffle_in_place(&mut self.discard_stack);
        let ghost shuffled = self.discard_stack@;
        let ghost before = self.draw_stack@;
        self.draw_stack.append(&mut self.discard_stack);
        proof {
            assert(self.draw_stack@ == before + shuffled);
            vstd::seq_lib::lemma_multiset_commutative(before, shuffled);
            assert(self.draw_stack@.take(before.len() as int) =~= before);
            assert(self.discard_stack@ =~= Seq::<T>::empty());
        }
    }

    /// The amount of cards left on the draw stack.
    pub fn draw_stack_size(&self) -> (r: usize)
        ensures
            r == self.spec_draw().len(),
    {
        self.draw_stack.len()
    }

    /// The amount of cards in the discard pile.
    pub fn discard_stack_size(&self) -> (r: usize)
        ensures
            r == self.spec_discard().len(),
    {
        self.discard_stack.len()
    }

    /// The amount of cards in the draw pile and the discard pile combined.
    pub fn size(&self) -> (r: usize)
        requires
            self.spec_draw().len() + self.spec_discard().len() <= usize::MAX,
        ensures
            r == self.spec_draw().len() + self.spec_discard().len(),
    {
        self.draw_stack.len() + self.discard_stack.len()
    }
}

} // verus!
