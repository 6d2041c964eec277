//! This module takes care of drawing cards from a standard deck with optionnal Joker in it.

use crate::source::thread_generator;
use rand::seq::SliceRandom;
use vstd::prelude::*;
use vstd::string::*;

verus! {

/// Representation of the suits in a deck of cards
#[derive(Debug, Copy, Clone, PartialEq, Eq, Structural)]
#[allow(missing_docs)]
pub enum Suit {
    /// A joker has no suit, this variant is only used for a joker card
    NoSuit,
    Clubs,
    Diamonds,
    Hearts,
    Spades,
}

/// A card
#[derive(Debug, Copy, Clone, PartialEq, Eq, Structural)]
pub struct Card {
    /// Value of the card 1 to 10, Jack (11), Queen (12) and King (13), Joker (0)
    pub value: u32,
    /// Suit of the card, `Suit::NoSuit` if it's a Joker
    pub suit: Suit,
}

/// Represent a standard deck of cards of 52 cards, with optionnal Jokers
///
/// `Deref` gives back the internal `Vec<Card>`
#[derive(Debug)]
pub struct Deck {
    cards: Vec<Card>,
}

/// The thirteen cards of a suit, from the ace to the king.
pub open spec fn one_suit(suit: Suit) -> Seq<Card> {
    Seq::new(13, |i: int| Card { value: (i + 1) as u32, suit })
}

/// That many jokers.
pub open spec fn jokers(nb: nat) -> Seq<Card> {
    Seq::new(nb, |i: int| Card { value: 0, suit: Suit::NoSuit })
}

/// A deck as it comes before it is shuffled: clubs, diamonds, hearts,
/// spades, then the jokers.
pub open spec fn fresh_deck(nb_of_joker: nat) -> Seq<Card> {
    one_suit(Suit::Clubs) + one_suit(Suit::Diamonds) + one_suit(Suit::Hearts) + one_suit(
        Suit::Spades,
    ) + jokers(nb_of_joker)
}

/// How the value of a card is shown.
pub open spec fn value_text(value: u32) -> Seq<char> {
    if value == 0 {
        "0"@
    } else if value == 1 {
        "1"@
    } else if value == 2 {
        "2"@
    } else if value == 3 {
        "3"@
    } else if value == 4 {
        "4"@
    } else if value == 5 {
        "5"@
    } else if value == 6 {
        "6"@
    } else if value == 7 {
        "7"@
    } else if value == 8 {
        "8"@
    } else if value == 9 {
        "9"@
    } else if value == 10 {
        "10"@
    } else if value == 11 {
        "J"@
    } else if value == 12 {
        "Q"@
    } else {
        "K"@
    }
}

/// How a card is shown: the value and the sign of the suit; a card without a
/// suit as the joker.
pub open spec fn card_text(card: Card) -> Seq<char> {
    match card.suit {
        Suit::NoSuit => "🃏"@,
        Suit::Clubs => value_text(card.value) + "♣"@,
        Suit::Diamonds => value_text(card.value) + "♦"@,
        Suit::Hearts => value_text(card.value) + "♥"@,
        Suit::Spades => value_text(card.value) + "♠"@,
    }
}

impl Card {
    /// The card as it is shown, such as `10♥` or `K♠`.
    pub fn to_string(&self) -> (s: String)
        requires
            self.value <= 13,
        ensures
            s@ == card_text(*self),
    {
        let value = match self.value {
            0 => "0",
            1 => "1",
            2 => "2",
            3 => "3",
            4 => "4",
            5 => "5",
            6 => "6",
            7 => "7",
            8 => "8",
            9 => "9",
            10 => "10",
            11 => "J",
            12 => "Q",
            _ => "K",
        };
        match self.suit {
            Suit::NoSuit => String::from_str("🃏"),
            Suit::Clubs => String::from_str(value).concat("♣"),
            Suit::Diamonds => String::from_str(value).concat("♦"),
            Suit::Hearts => String::from_str(value).concat("♥"),
            Suit::Spades => String::from_str(value).concat("♠"),
        }
    }
}

/// Shuffles `cards` in place with `SliceRandom::shuffle`: the call swaps
/// items of the slice, so the cards are the same afterwards, each as often
/// as before. Nothing is said of their order.
#[verifier::external_body]
fn shuffle_cards(cards: &mut Vec<Card>, rng: &mut rand::rngs::ThreadRng)
    ensures
        final(cards)@.to_multiset() == old(cards)@.to_multiset(),
{
    cards.shuffle(rng);
}

impl View for Deck {
    type V = Seq<Card>;

    closed spec fn view(&self) -> Seq<Card> {
        self.cards@
    }
}

impl Deck {
    /// Create a deck of cards, with provided number of jokers, and shuffle it
    pub fn new(nb_of_joker: usize) -> (deck: Self)
        ensures
            deck@.to_multiset() == fresh_deck(nb_of_joker as nat).to_multiset(),
    {
        Deck { cards: Deck::generate_deck(nb_of_joker) }
    }

    /// The cards of a deck with that many jokers, shuffled.
    fn generate_deck(nb_of_joker: usize) -> (cards: Vec<Card>)
        ensures
            cards@.to_multiset() == fresh_deck(nb_of_joker as nat).to_multiset(),
    {
        let mut cards: Vec<Card> = Vec::new();
        let mut clubs = Deck::generate_one_suit(Suit::Clubs);
        let mut diamonds = Deck::generate_one_suit(Suit::Diamonds);
        let mut hearts = Deck::generate_one_suit(Suit::Hearts);
        let mut spades = Deck::generate_one_suit(Suit::Spades);
        cards.append(&mut clubs);
        cards.append(&mut diamonds);
        cards.append(&mut hearts);
        cards.append(&mut spades);
        let ghost suits = cards@;
        let mut i: usize = 0;
        while i < nb_of_joker
            invariant
                i <= nb_of_joker,
                cards@ =~= suits + jokers(i as nat),
            decreases nb_of_joker - i,
        {
            cards.push(Card { value: 0, suit: Suit::NoSuit });
            i = i + 1;
        }
        assert(cards@ =~= fresh_deck(nb_of_joker as nat));
        let mut rng = thread_generator();
        shuffle_cards(&mut cards, &mut rng);
        cards
    }

    /// The thirteen cards of `suit`, from the ace to the king.
    fn generate_one_suit(suit: Suit) -> (cards: Vec<Card>)
        ensures
            cards@ == one_suit(suit),
    {
        let mut cards: Vec<Card> = Vec::new();
        let mut value: u32 = 1;
        while value < 14
            invariant
                1 <= value <= 14,
                cards@.len() == value - 1,
                forall|i: int|
                    0 <= i < cards@.len() ==> cards@[i] == (Card { value: (i + 1) as u32, suit }),
            decreases 14 - value,
        {
            cards.push(Card { value, suit });
            value = value + 1;
        }
        assert(cards@ =~= one_suit(suit));
        cards
    }

    /// Draw the wanted number of cards, removing them from the Deck
    pub fn draw(&mut self, nb: usize) -> (drawn: Vec<Card>)
        requires
            nb <= old(self)@.len(),
        ensures
            drawn@ == old(self)@.take(nb as int),
            final(self)@ == old(self)@.skip(nb as int),
    {
        let mut rest = self.cards.split_off(nb);
        core::mem::swap(&mut self.cards, &mut rest);
        assert(rest@ =~= old(self)@.take(nb as int));
        assert(self.cards@ =~= old(self)@.skip(nb as int));
        rest
    }

    /// Shuffle the remaining cards
    pub fn shuffle(&mut self)
        ensures
            final(self)@.to_multiset() == old(self)@.to_multiset(),
    {
        let mut rng = thread_generator();
        shuffle_cards(&mut self.cards, &mut rng);
    }

    /// Recreate the deck and shuffle it
    pub fn reset(&mut self, nb_of_joker: usize)
        ensures
            final(self)@.to_multiset() == fresh_deck(nb_of_joker as nat).to_multiset(),
    {
        self.cards = Deck::generate_deck(nb_of_joker);
    }
}

impl core::ops::Deref for Deck {
    type Target = Vec<Card>;

    fn deref(&self) -> (cards: &Vec<Card>)
        ensures
            cards@ == self@,
    {
        &self.cards
    }
}

impl core::ops::DerefMut for Deck {
    fn deref_mut(&mut self) -> (cards: &mut Vec<Card>)
        ensures
            cards@ == old(self)@,
            final(self)@ == final(cards)@,
    {
        &mut self.cards
    }
}

} // verus!
