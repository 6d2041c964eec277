use caith::cards::{Card, Deck, Suit};
use caith::number::compute;
use caith::sorting::{sort_ascending, sort_descending};
use caith::total::TotalModifier;
use caith::{
    compute_ova, Critic, Decimal, DiceResult, Fault, Operator, RollError, RollHistory,
    RollResult, SingleRollResult, Value,
};

#[test]
fn a_die_knows_its_extremes() {
    assert_eq!(DiceResult::new(6, 6).crit, Critic::Max);
    assert_eq!(DiceResult::new(1, 6).crit, Critic::Min);
    assert_eq!(DiceResult::new(3, 6).crit, Critic::No);
    assert_eq!(DiceResult::new(1, 1).crit, Critic::Max);
    assert_eq!(DiceResult::new(3, 6).res, 3);
}

#[test]
fn dice_compare_by_their_faces() {
    assert!(DiceResult::new(6, 6) == DiceResult::new(6, 20));
    assert!(DiceResult::new(5, 6) != DiceResult::new(6, 6));
    assert!(DiceResult::new(5, 6) < DiceResult::new(6, 6));
    assert!(DiceResult::new(6, 6) >= DiceResult::new(6, 8));
    assert!(DiceResult::new(7, 8) > DiceResult::new(6, 6));
    assert_eq!(*DiceResult::new(7, 8), 7);
}

#[test]
fn a_text_becomes_an_error() {
    let e: RollError = String::from("no").into();
    assert!(matches!(e, RollError::ParamError(ref m) if m == "no"));
    assert_eq!(e.to_string(), "no");
}

#[test]
fn numbers_are_sorted_both_ways() {
    assert_eq!(sort_ascending(&vec![3u64, 1, 2, 3, 0]), vec![0, 1, 2, 3, 3]);
    assert_eq!(sort_descending(&vec![3u64, 1, 2, 3, 0]), vec![3, 3, 2, 1, 0]);
    assert_eq!(sort_ascending(&vec![-3i64, 5, -7]), vec![-7, -3, 5]);
    assert_eq!(sort_ascending(&Vec::<u64>::new()), Vec::<u64>::new());
}

#[test]
fn decimals_keep_their_digits() {
    let d = Decimal::new(15, 1).unwrap();
    assert_eq!(d.units(), 15);
    assert_eq!(d.scale(), 1);
    assert_eq!(d.trunc(), 1);
    assert!(!d.is_zero());
    assert_eq!(Decimal::new(-15, 1).unwrap().trunc(), -1);
    assert_eq!(Decimal::new(-199, 2).unwrap().trunc(), -1);
    assert!(Decimal::new(0, 3).unwrap().is_zero());
    assert!(Decimal::new(1, 19).is_none());
    assert!(Decimal::new(1, 18).is_some());
    assert_eq!(Value::Decimal(d).get_value(), 1);
    assert_eq!(Value::Int(-4).get_value(), -4);
    assert_eq!(Value::Decimal(d).to_string(), "1.5");
    assert_eq!(Value::Int(-4).to_string(), "-4");
    assert_eq!(
        Value::Decimal(Decimal::new(-1005, 3).unwrap()).to_string(),
        "-1.005"
    );
    assert_eq!(
        Value::Decimal(Decimal::new(1200, 2).unwrap()).to_string(),
        "12"
    );
    assert_eq!(
        Value::Int(i64::MIN).to_string(),
        "-9223372036854775808"
    );
}

#[test]
fn arithmetic_is_exact_and_cut_off_once() {
    let half = Decimal::new(5, 1);
    let third = Decimal::new(333, 3);
    assert_eq!(compute(Operator::Add, 7, None, 8, None), Some(15));
    assert_eq!(compute(Operator::Sub, 7, None, 8, None), Some(-1));
    assert_eq!(compute(Operator::Mul, 7, None, 8, None), Some(56));
    assert_eq!(compute(Operator::Div, 7, None, 8, None), Some(0));
    assert_eq!(compute(Operator::Div, -17, None, 8, None), Some(-2));
    assert_eq!(compute(Operator::Mul, 7, None, 0, half), Some(3));
    assert_eq!(compute(Operator::Div, 7, None, 0, half), Some(14));
    assert_eq!(compute(Operator::Add, 0, half, 0, half), Some(1));
    assert_eq!(compute(Operator::Sub, 0, half, 1, None), Some(0));
    assert_eq!(compute(Operator::Mul, 0, third, 3, None), Some(0));
    assert_eq!(compute(Operator::Div, 0, third, 0, half), Some(0));
    assert_eq!(compute(Operator::Div, 1, None, 0, third), Some(3));
    assert_eq!(compute(Operator::Add, i64::MAX, None, 1, None), None);
    assert_eq!(compute(Operator::Sub, i64::MIN, None, 1, None), None);
    assert_eq!(compute(Operator::Mul, i64::MAX, None, 2, None), None);
    assert_eq!(compute(Operator::Div, i64::MIN, None, -1, None), None);
    assert_eq!(
        compute(Operator::Mul, i64::MAX, None, 0, Decimal::new(1, 18)),
        Some(9)
    );
}

fn batch(faces: Vec<u64>, sides: u64) -> SingleRollResult {
    let mut r = SingleRollResult::new();
    r.add_history(&faces, sides, false);
    r
}

#[test]
fn a_total_is_computed_from_the_history() {
    let mut r = batch(vec![2, 9, 7], 10);
    assert_eq!(r.compute_total(&TotalModifier::KeepHi(2)).unwrap(), 16);
    let mut r = batch(vec![2, 9, 7], 10);
    assert_eq!(r.compute_total(&TotalModifier::KeepLo(2)).unwrap(), 9);
    let mut r = batch(vec![2, 9, 7], 10);
    assert_eq!(r.compute_total(&TotalModifier::DropHi(2)).unwrap(), 2);
    let mut r = batch(vec![2, 9, 7], 10);
    assert_eq!(r.compute_total(&TotalModifier::DropLo(3)).unwrap(), 0);
    let mut r = batch(vec![2, 9, 7], 10);
    assert!(r.compute_total(&TotalModifier::DropLo(4)).is_err());
    let mut r = batch(vec![2, 9, 7, 10], 10);
    let successes = TotalModifier::TargetFailureDouble(Some(7), Some(2), Some(10));
    assert_eq!(r.compute_total(&successes).unwrap(), 3);
    let mut r = batch(vec![2, 9, 7, 10], 10);
    let listed = TotalModifier::TargetEnum(vec![2, 10, 11]);
    assert_eq!(r.compute_total(&listed).unwrap(), 2);
    let mut r = batch(vec![1, 2, 3, 4, 5, 6], 6);
    assert_eq!(r.compute_total(&TotalModifier::Fudge).unwrap(), 0);
}

#[test]
fn a_total_is_kept_until_the_history_grows() {
    let mut r = batch(vec![2, 9, 7], 10);
    assert_eq!(r.compute_total(&TotalModifier::KeepHi(2)).unwrap(), 16);
    assert_eq!(r.compute_total(&TotalModifier::KeepLo(1)).unwrap(), 16);
    assert_eq!(r.get_total(), 16);
    r.add_history(&vec![1], 10, false);
    assert_eq!(r.compute_total(&TotalModifier::KeepLo(1)).unwrap(), 1);
    assert_eq!(r.count_values(), 4);
}

#[test]
fn results_are_combined_with_their_histories() {
    let sum = SingleRollResult::with_total(4)
        .add(SingleRollResult::with_total(5))
        .unwrap();
    assert_eq!(sum.get_total(), 9);
    assert_eq!(sum.to_string(false), "4 + 5 = 9");
    assert_eq!(sum.get_history().len(), 3);
    let difference = sum.sub(SingleRollResult::with_total(10)).unwrap();
    assert_eq!(difference.to_string(false), "4 + 5 - 10 = -1");
    let product = difference
        .mul(SingleRollResult::with_decimal(Decimal::new(25, 1).unwrap()))
        .unwrap();
    assert_eq!(product.to_string(false), "4 + 5 - 10 * 2.5 = -2");
    let quotient = product.div(SingleRollResult::with_total(2)).unwrap();
    assert_eq!(quotient.to_string(true), "`4 + 5 - 10 * 2.5 / 2` = **-1**");
    let nothing = SingleRollResult::new();
    assert!(nothing.is_zero());
    assert_eq!(nothing.to_string(false), "0");
    assert_eq!(nothing.to_string(true), "`0`");
    let alone = SingleRollResult::with_total(3)
        .add(SingleRollResult::new())
        .unwrap();
    assert_eq!(alone.to_string(false), "3 = 3");
    let failed = SingleRollResult::with_total(3).div(SingleRollResult::with_total(0));
    assert!(matches!(failed, Err(RollError::ParamError(m)) if m == "Can't divide by zero"));
    let zero = SingleRollResult::with_decimal(Decimal::new(0, 2).unwrap());
    assert!(zero.is_zero());
    assert!(SingleRollResult::with_total(3).div(zero).is_err());
}

#[test]
fn steps_are_shown() {
    assert_eq!(RollHistory::OpenParenthesis.to_string(), "(");
    assert_eq!(RollHistory::CloseParenthesis.to_string(), ")");
    assert_eq!(RollHistory::Separator(" * ").to_string(), " * ");
    assert_eq!(RollHistory::Fudge(vec![]).to_string(), "[]");
    assert_eq!(RollHistory::Fudge(vec![5, 4, 2]).to_string(), "[+, ▢, -]");
    assert_eq!(
        RollHistory::Roll(vec![DiceResult::new(12, 20), DiceResult::new(3, 20)]).to_string(),
        "[12, 3]"
    );
    assert_eq!(
        RollHistory::ReRolls(vec![
            vec![DiceResult::new(1, 6), DiceResult::new(5, 6)],
            vec![DiceResult::new(4, 6)],
        ])
        .to_string(),
        "[1 -> 5, 4] -> "
    );
    assert_eq!(RollHistory::Value(Value::Int(0)).to_string(), "0");
}

#[test]
fn every_fault_has_its_text() {
    let texts = [
        (Fault::ZeroSides, "Dice can't have 0 sides"),
        (
            Fault::TooManyDice(5000),
            "Exceed maximum allowed number of dices (5000)",
        ),
        (Fault::TooManySides(20), "Dice can't have more than 20"),
        (Fault::NotEnoughDice, "Not enough dice to keep or drop"),
        (Fault::RepeatNotPositive, "Can't repeat 0 times or negatively"),
        (Fault::DivisionByZero, "Can't divide by zero"),
        (
            Fault::TooManyRolls(100),
            "Exceed maximum allowed number of explosions or rerolls (100)",
        ),
        (Fault::Overflow, "Total is out of range"),
        (Fault::ZeroNumber, "Number can't be zero"),
        (Fault::NotSingle, "Not a single roll result"),
        (Fault::NotOneRoll, "Should have only one roll"),
        (Fault::NotARoll, "RollHistory must be a Roll variant"),
        (Fault::NoDice, "Should have at least one dice"),
    ];
    for (fault, text) in texts {
        assert_eq!(fault.message(), text);
        assert_eq!(RollError::refuse(fault).to_string(), text);
    }
}

fn refused(out: Result<RollResult, RollError>) -> String {
    match out {
        Err(e) => e.to_string(),
        Ok(_) => panic!("not refused"),
    }
}

#[test]
fn only_one_batch_is_read_as_ova() {
    let one = RollResult::new_single(batch(vec![2, 5, 5, 3, 3, 3], 6));
    assert_eq!(refused(compute_ova(&one, 0)), "Number can't be zero");
    let res = compute_ova(&one, 6).unwrap();
    assert_eq!(res.as_single().unwrap().get_total(), 10);
    assert_eq!(res.as_single().unwrap().to_string(false), "[2, 3, 3, 3, 5, 5] = 10");
    let res = compute_ova(&one, -6).unwrap();
    assert_eq!(res.as_single().unwrap().get_total(), 2);

    let highest = RollResult::new_single(batch(vec![6, 6, 1], 6));
    assert_eq!(
        compute_ova(&highest, 3).unwrap().as_single().unwrap().get_total(),
        12
    );
    let thrice = RollResult::new_single(batch(vec![6, 1, 6, 6], 6));
    assert_eq!(
        compute_ova(&thrice, 4).unwrap().as_single().unwrap().get_total(),
        18
    );
    let alike = RollResult::new_single(batch(vec![4, 4], 6));
    assert_eq!(
        compute_ova(&alike, 2).unwrap().as_single().unwrap().get_total(),
        8
    );

    let none = RollResult::new_single(batch(vec![], 6));
    assert_eq!(
        compute_ova(&none, 1).unwrap().as_single().unwrap().get_total(),
        0
    );
    assert_eq!(refused(compute_ova(&none, -1)), "Should have at least one dice");

    let repeated = RollResult::new_repeated(vec![batch(vec![1], 6)], None);
    assert_eq!(refused(compute_ova(&repeated, 1)), "Not a single roll result");
    let empty = RollResult::new_single(SingleRollResult::new());
    assert_eq!(refused(compute_ova(&empty, 1)), "Should have only one roll");
    let constant = RollResult::new_single(SingleRollResult::with_total(3));
    assert_eq!(
        refused(compute_ova(&constant, 1)),
        "RollHistory must be a Roll variant"
    );
}

fn in_order(mut cards: Vec<Card>) -> Vec<(u32, u8)> {
    let mut keys: Vec<(u32, u8)> = cards
        .drain(..)
        .map(|c| {
            (
                c.value,
                match c.suit {
                    Suit::NoSuit => 0,
                    Suit::Clubs => 1,
                    Suit::Diamonds => 2,
                    Suit::Hearts => 3,
                    Suit::Spades => 4,
                },
            )
        })
        .collect();
    keys.sort();
    keys
}

fn fresh(jokers: usize) -> Vec<(u32, u8)> {
    let mut keys = Vec::new();
    for suit in 1..5u8 {
        for value in 1..14u32 {
            keys.push((value, suit));
        }
    }
    for _ in 0..jokers {
        keys.push((0, 0));
    }
    keys.sort();
    keys
}

#[test]
fn a_deck_holds_every_card_once() {
    let deck = Deck::new(2);
    assert_eq!(deck.len(), 54);
    assert_eq!(in_order(deck.to_vec()), fresh(2));
    let deck = Deck::new(0);
    assert_eq!(deck.len(), 52);
    assert_eq!(in_order(deck.to_vec()), fresh(0));
}

#[test]
fn a_deck_is_shuffled() {
    let sorted = fresh(0);
    let mut same = 0;
    for _ in 0..8 {
        let deck = Deck::new(0);
        let keys: Vec<(u32, u8)> = deck
            .iter()
            .map(|c| {
                (
                    c.value,
                    match c.suit {
                        Suit::NoSuit => 0,
                        Suit::Clubs => 1,
                        Suit::Diamonds => 2,
                        Suit::Hearts => 3,
                        Suit::Spades => 4,
                    },
                )
            })
            .collect();
        let by_suit: Vec<(u32, u8)> = {
            let mut k = sorted.clone();
            k.sort_by_key(|c| (c.1, c.0));
            k
        };
        if keys == by_suit {
            same += 1;
        }
    }
    assert!(same < 8);
}

#[test]
fn cards_are_drawn_from_the_top() {
    let mut deck = Deck::new(1);
    let before = deck.to_vec();
    let drawn = deck.draw(5);
    assert_eq!(drawn.len(), 5);
    assert_eq!(deck.len(), 48);
    assert_eq!(drawn, before[..5].to_vec());
    assert_eq!(deck.to_vec(), before[5..].to_vec());
    assert!(deck.draw(0).is_empty());
    let rest = deck.draw(48);
    assert_eq!(rest.len(), 48);
    assert!(deck.is_empty());
    deck.reset(3);
    assert_eq!(in_order(deck.to_vec()), fresh(3));
    deck.shuffle();
    assert_eq!(in_order(deck.to_vec()), fresh(3));
}

#[test]
fn cards_are_shown_by_value_and_suit() {
    let show = |value, suit| Card { value, suit }.to_string();
    assert_eq!(show(1, Suit::Clubs), "1♣");
    assert_eq!(show(10, Suit::Hearts), "10♥");
    assert_eq!(show(11, Suit::Diamonds), "J♦");
    assert_eq!(show(12, Suit::Spades), "Q♠");
    assert_eq!(show(13, Suit::Spades), "K♠");
    assert_eq!(show(0, Suit::NoSuit), "🃏");
    assert_eq!(show(0, Suit::Clubs), "0♣");
}
