use caith::{DiceRollSource, Limits, Recorder, ReplaySource, RollError, RollResult, Roller};

fn replay(text: &str, faces: Vec<u64>) -> Result<RollResult, RollError> {
    let mut source = ReplaySource::new(faces);
    Roller::new(text).unwrap().roll_with_source(&mut source)
}

fn total(text: &str, faces: Vec<u64>) -> i64 {
    replay(text, faces).unwrap().as_single().unwrap().get_total()
}

fn shown(text: &str, faces: Vec<u64>) -> String {
    replay(text, faces)
        .unwrap()
        .as_single()
        .unwrap()
        .to_string(false)
}

fn refused(text: &str, faces: Vec<u64>) -> String {
    match replay(text, faces) {
        Err(RollError::ParamError(message)) => message,
        Err(RollError::ParseError(e)) => panic!("not read at {}", e.position),
        Ok(_) => panic!("not refused"),
    }
}

fn misread_at(text: &str) -> usize {
    match replay(text, vec![]) {
        Err(RollError::ParseError(e)) => e.position,
        Err(RollError::ParamError(message)) => panic!("refused: {}", message),
        Ok(_) => panic!("read"),
    }
}

#[test]
fn plain_dice_are_summed() {
    assert_eq!(total("3d6", vec![3, 6, 3]), 12);
    assert_eq!(shown("3d6", vec![3, 6, 3]), "[6, 3, 3] = 12");
    assert_eq!(total("0d6", vec![]), 0);
    assert_eq!(total("d20", vec![8]), 8);
    assert_eq!(total("D20", vec![8]), 8);
}

#[test]
fn the_lowest_die_is_dropped() {
    assert_eq!(total("3d10 d1", vec![2, 7, 9]), 16);
    assert_eq!(shown("3d10 d1", vec![2, 7, 9]), "[9, 7, 2] = 16");
}

#[test]
fn dice_are_kept_and_dropped_from_either_end() {
    assert_eq!(total("4d6 K3", vec![1, 6, 3, 4]), 13);
    assert_eq!(total("4d6 k3", vec![1, 6, 3, 4]), 8);
    assert_eq!(total("4d6 D1", vec![1, 6, 3, 4]), 8);
    assert_eq!(total("4d6 d3", vec![1, 6, 3, 4]), 6);
    assert_eq!(total("4d6 K4", vec![1, 6, 3, 4]), 14);
    assert_eq!(total("4d6 d4", vec![1, 6, 3, 4]), 0);
}

#[test]
fn targets_count_successes() {
    assert_eq!(total("10d10 t7", (1..11).collect()), 4);
    assert_eq!(total("10d10 t7 tt9", (1..11).collect()), 6);
    assert_eq!(total("10d10 tt7 t9", (1..11).collect()), 8);
    assert_eq!(total("10d10 tt8", (1..11).collect()), 6);
    assert_eq!(total("5d10 t8 f1", vec![1, 8, 9, 1, 5]), 0);
    assert_eq!(total("5d10 f2", vec![1, 2, 3, 1, 5]), -3);
    assert_eq!(total("6d6 t[2,4,6]", (1..7).collect()), 3);
    assert_eq!(total("6d6 t[ 2 , 4 , 6 ]", vec![1, 2, 2, 4, 6, 3]), 4);
}

#[test]
fn the_first_target_of_a_kind_stands() {
    assert_eq!(total("10d10 t7 t9", (1..11).collect()), 4);
    assert_eq!(total("10d10 t9 t7", (1..11).collect()), 2);
    assert_eq!(total("10d10 tt9 t7 tt10", (1..11).collect()), 6);
}

#[test]
fn a_target_of_zero_is_no_target() {
    assert_eq!(total("3d6 t0", vec![1, 2, 3]), 0);
    assert_eq!(total("3d6 t0 t2", vec![1, 2, 3]), 2);
}

#[test]
fn dice_explode_once() {
    assert_eq!(total("3d6 e6", vec![6, 2, 6, 3, 4]), 21);
    assert_eq!(shown("3d6 e6", vec![6, 2, 6, 3, 4]), "[6, 6, 2][4, 3] = 21");
    assert_eq!(shown("3d6 e", vec![6, 2, 6, 6, 6]), "[6, 6, 2][6, 6] = 26");
    assert_eq!(shown("3d6 e5", vec![1, 2, 3]), "[3, 2, 1] = 6");
    assert_eq!(shown("2d6 e 5", vec![5, 1, 2]), "[5, 1][2] = 8");
}

#[test]
fn dice_explode_until_none_does() {
    assert_eq!(total("2d6 ie6", vec![6, 6, 6, 1, 2]), 21);
    assert_eq!(shown("2d6 ie6", vec![6, 6, 6, 1, 2]), "[6, 6][6, 2, 1] = 21");
    assert_eq!(shown("2d6!", vec![6, 1, 6, 3]), "[6, 1][6, 3] = 16");
    assert_eq!(shown("2d6 ie", vec![2, 1]), "[2, 1] = 3");
    assert_eq!(shown("2d6 ie5 ie5", vec![5, 1, 6, 2]), "[5, 1][6, 2] = 14");
}

#[test]
fn explosions_without_end_are_refused() {
    assert_eq!(
        refused("1d1 ie", vec![]),
        "Exceed maximum allowed number of explosions or rerolls (100)"
    );
    assert_eq!(
        refused("1d6 ir6", vec![]),
        "Exceed maximum allowed number of explosions or rerolls (100)"
    );
    let r = Roller::new("2d1!").unwrap();
    assert!(matches!(r.roll(), Err(RollError::ParamError(_))));
}

#[test]
fn low_dice_are_rolled_again() {
    assert_eq!(total("4d6 r2", vec![1, 3, 5, 2, 4, 6]), 18);
    assert_eq!(
        shown("4d6 r2", vec![1, 3, 5, 2, 4, 6]),
        "[1 -> 4, 3, 5, 2 -> 6] -> [6, 5, 4, 3] = 18"
    );
    assert_eq!(shown("2d6 r2", vec![3, 4]), "[4, 3] = 7");
    assert_eq!(shown("2d6 r2", vec![1, 4, 2]), "[1 -> 2, 4] -> [4, 2] = 6");
}

#[test]
fn low_dice_are_rolled_until_they_are_high() {
    assert_eq!(total("2d6 ir2", vec![1, 4, 2, 1, 5]), 9);
    assert_eq!(
        shown("2d6 ir2", vec![1, 4, 2, 1, 5]),
        "[1 -> 2 -> 1 -> 5, 4] -> [5, 4] = 9"
    );
    assert_eq!(shown("3d6 ir2", vec![3, 4, 5]), "[5, 4, 3] = 12");
}

#[test]
fn every_die_is_counted_once() {
    assert_eq!(shown("3d6 e6 t4", vec![6, 2, 3, 4]), "[6, 3, 2][4] = 2");
    assert_eq!(shown("3d6 e6 t4", vec![5, 2, 3]), "[5, 3, 2] = 1");
    assert_eq!(shown("4d6 K3 t5", vec![5, 2, 6, 1]), "[6, 5, 2, 1] = 2");
    assert_eq!(shown("4d6 K3 e6", vec![5, 2, 6, 1, 3]), "[6, 5, 2, 1][3] = 17");
    assert_eq!(shown("3d6 t[1,2] t5", vec![5, 2, 6]), "[6, 5, 2] = 2");
    assert_eq!(shown("3d6 t5 t[1,2]", vec![5, 2, 6]), "[6, 5, 2] = 1");
    assert_eq!(shown("3d6 r2 t5", vec![5, 2, 6, 1]), "[5, 2 -> 1, 6] -> [6, 5, 1] = 2");
    assert_eq!(shown("3d6 t5 e6", vec![5, 2, 6, 1]), "[6, 5, 2][1] = 14");
}

#[test]
fn modifiers_work_on_the_newest_dice() {
    assert_eq!(shown("2d6 e6 e6", vec![6, 1, 6, 4]), "[6, 1][6][4] = 17");
    assert_eq!(shown("2d6 e6 e6", vec![5, 1]), "[5, 1] = 6");
    assert_eq!(
        shown("2d6 e6 r2", vec![6, 1, 2, 5]),
        "[6, 1][2][2 -> 5] -> [5] = 14"
    );
    assert_eq!(shown("4d6 k2 r2", vec![5, 2, 6, 1, 3, 4]), "[6, 5, 2, 1][1 -> 3, 2 -> 4] -> [4, 3] = 21");
}

#[test]
fn fudge_dice_count_one_zero_or_minus_one() {
    assert_eq!(total("4dF", vec![1, 3, 5, 6]), 1);
    assert_eq!(shown("4dF", vec![1, 3, 5, 6]), "[+, +, ▢, -] = 1");
    assert_eq!(total("3df", vec![1, 2, 2]), -3);
    assert_eq!(total("2dF + 3", vec![5, 6]), 5);
}

#[test]
fn products_come_before_sums() {
    assert_eq!(total("2 + 3 * 4", vec![]), 14);
    assert_eq!(total("2 * 3 + 4 * 5", vec![]), 26);
    assert_eq!(total("10 - 4 - 3", vec![]), 3);
    assert_eq!(total("100 / 10 / 5", vec![]), 2);
    assert_eq!(total("(2 + 3) * 4", vec![]), 20);
    assert_eq!(shown("(2 + 3) * 4", vec![]), "(2 + 3) * 4 = 20");
    assert_eq!(total("2d6 + 3 * 1d4", vec![3, 4, 2]), 13);
    assert_eq!(shown("2d6 + 3 * 1d4", vec![3, 4, 2]), "[4, 3] + 3 * [2] = 13");
    assert_eq!(total("-5 + 3", vec![]), -2);
    assert_eq!(total("3 - -2", vec![]), 5);
}

#[test]
fn quotients_are_cut_off_toward_zero() {
    assert_eq!(total("7 / 2", vec![]), 3);
    assert_eq!(total("-7 / 2", vec![]), -3);
    assert_eq!(total("7 / -2", vec![]), -3);
    assert_eq!(total("-7 / -2", vec![]), 3);
}

#[test]
fn decimal_literals_are_exact() {
    assert_eq!(total("20 * 1.5", vec![]), 30);
    assert_eq!(total("20 + 1.5", vec![]), 21);
    assert_eq!(total("1.5 + 1.5", vec![]), 3);
    assert_eq!(total("1 / 0.5", vec![]), 2);
    assert_eq!(total("3 * 0.1", vec![]), 0);
    assert_eq!(total("-2.5 * 3", vec![]), -7);
    assert_eq!(total("1.5", vec![]), 1);
    assert_eq!(total("3d6 * 1.5", vec![1, 1, 1]), 4);
    assert_eq!(shown("20 * 1.5", vec![]), "20 * 1.5 = 30");
    assert_eq!(shown("2.50 + 1", vec![]), "2.5 + 1 = 3");
    assert_eq!(shown("-0.25 * 8", vec![]), "-0.25 * 8 = -2");
    assert_eq!(shown("2.0", vec![]), "2 = 2");
}

#[test]
fn a_division_by_zero_is_refused() {
    assert_eq!(refused("10 / 0", vec![]), "Can't divide by zero");
    assert_eq!(refused("10 / 0.0", vec![]), "Can't divide by zero");
    assert_eq!(refused("1d6 / (2 - 2)", vec![3]), "Can't divide by zero");
    assert_eq!(refused("5 / 0 + 1d0", vec![]), "Can't divide by zero");
    assert_eq!(total("10 / 0.5", vec![]), 20);
}

#[test]
fn faulty_terms_are_refused() {
    assert_eq!(refused("1d0", vec![]), "Dice can't have 0 sides");
    assert_eq!(
        refused("5001d6", vec![]),
        "Exceed maximum allowed number of dices (5000)"
    );
    assert_eq!(refused("1d5001", vec![]), "Dice can't have more than 5000");
    assert_eq!(
        refused("5001d0", vec![]),
        "Exceed maximum allowed number of dices (5000)"
    );
    assert_eq!(refused("3d6 K5", vec![1, 2, 3]), "Not enough dice to keep or drop");
    assert_eq!(refused("3d6 d4", vec![1, 2, 3]), "Not enough dice to keep or drop");
    assert_eq!(
        refused("3d6 K5 t4", vec![1, 2, 3]),
        "Not enough dice to keep or drop"
    );
    assert_eq!(
        refused("(1d6) ^ 0", vec![]),
        "Can't repeat 0 times or negatively"
    );
    assert_eq!(
        refused("9223372036854775807 + 1", vec![]),
        "Total is out of range"
    );
    assert_eq!(
        refused("-9223372036854775808 / -1", vec![]),
        "Total is out of range"
    );
    assert_eq!(total("5000d5000", vec![]), 5000);
}

#[test]
fn the_first_fault_is_reported() {
    assert_eq!(refused("1d0 + 5001d6", vec![]), "Dice can't have 0 sides");
    assert_eq!(
        refused("5001d6 + 1d0", vec![]),
        "Exceed maximum allowed number of dices (5000)"
    );
}

#[test]
fn what_is_no_expression_is_not_read() {
    assert_eq!(misread_at(""), 0);
    assert_eq!(misread_at("abc"), 0);
    assert_eq!(misread_at("3d6 +"), 4);
    assert_eq!(misread_at("3dx"), 1);
    assert_eq!(misread_at("(2d6"), 0);
    assert_eq!(misread_at("4dF K2"), 4);
    assert_eq!(misread_at("3d6 K"), 4);
    assert_eq!(misread_at("99999999999999999999"), 0);
    assert_eq!(misread_at("(1d6) ^ x"), 6);
    let e = Roller::new("3d6 +").unwrap().roll().unwrap_err();
    assert_eq!(e.to_string(), "expected an operator, a reason or the end");
    let e = Roller::new("?").unwrap().roll().unwrap_err();
    assert_eq!(e.to_string(), "expected an expression");
}

#[test]
fn expressions_are_repeated() {
    let res = replay("(2d6 + 6) ^ 3", vec![3, 5, 1, 1, 6, 5]).unwrap();
    let rep = res.as_repeated().unwrap();
    let totals: Vec<i64> = rep.iter().map(|r| r.get_total()).collect();
    assert_eq!(totals, vec![14, 8, 17]);
    assert_eq!(rep.get_total(), None);

    let res = replay("(2d6 + 6) ^# 3", vec![3, 5, 1, 1, 6, 5]).unwrap();
    let rep = res.as_repeated().unwrap();
    let totals: Vec<i64> = rep.iter().map(|r| r.get_total()).collect();
    assert_eq!(totals, vec![8, 14, 17]);
    assert_eq!(rep.get_total(), None);

    let res = replay("(2d6 + 6) ^+ 2", vec![3, 5, 4, 2]).unwrap();
    let rep = res.as_repeated().unwrap();
    assert_eq!(rep.get_total(), Some(26));
    assert_eq!(rep.rolls().len(), 2);
}

#[test]
fn equal_totals_keep_their_order() {
    let res = replay("(2d6) ^# 4", vec![4, 2, 1, 2, 3, 3, 1, 1]).unwrap();
    let rep = res.as_repeated().unwrap();
    let shown: Vec<String> = rep.iter().map(|r| r.to_string(false)).collect();
    assert_eq!(
        shown,
        vec!["[1, 1] = 2", "[2, 1] = 3", "[4, 2] = 6", "[3, 3] = 6"]
    );
}

#[test]
fn results_are_shown_with_their_reason() {
    let res = replay("2d6 + 6 : test", vec![3, 5]).unwrap();
    assert_eq!(res.get_reason(), Some(&"test".to_string()));
    assert_eq!(res.to_string(), "`[5, 3] + 6` = **14**, Reason: `test`");
    let res = replay("2d6 + 6", vec![3, 5]).unwrap();
    assert_eq!(res.get_reason(), None);
    assert_eq!(res.to_string(), "`[5, 3] + 6` = **14**");
    let res = replay("2d6:  for the win \t", vec![3, 5]).unwrap();
    assert_eq!(res.get_reason(), Some(&"for the win".to_string()));
    let res = replay("(2d6 + 6) ^+ 2 : test", vec![3, 5, 4, 2]).unwrap();
    assert_eq!(
        res.to_string(),
        "`[5, 3] + 6`\n`[4, 2] + 6`\nSum: **26**, Reason: `test`"
    );
    let res = replay("(2d6 + 6) ^ 2 : test", vec![3, 5, 4, 2]).unwrap();
    assert_eq!(
        res.to_string(),
        "`[5, 3] + 6` = **14**\n`[4, 2] + 6` = **12**\nReason: `test`"
    );
    let res = replay("(2d6 + 6) ^ 2", vec![3, 5, 4, 2]).unwrap();
    assert_eq!(
        res.to_string(),
        "`[5, 3] + 6` = **14**\n`[4, 2] + 6` = **12**\n"
    );
}

#[test]
fn results_are_shown_without_emphasis() {
    let res = replay("2d6 + 6 : test", vec![3, 5]).unwrap();
    assert_eq!(res.render(true), res.to_string());
    assert_eq!(res.render(false), "[5, 3] + 6 = 14, Reason: test");
    let res = replay("(2d6 + 6) ^+ 2 : test", vec![3, 5, 4, 2]).unwrap();
    assert_eq!(res.render(true), res.to_string());
    assert_eq!(
        res.render(false),
        "[5, 3] + 6\n[4, 2] + 6\nSum: 26, Reason: test"
    );
    let res = replay("(2d6 + 6) ^ 2 : test", vec![3, 5, 4, 2]).unwrap();
    assert_eq!(
        res.render(false),
        "[5, 3] + 6 = 14\n[4, 2] + 6 = 12\nReason: test"
    );
}

#[test]
fn the_same_faces_give_the_same_outcome() {
    let text = "4d6 ie6 + (2d10 r3) * 2 - 1d4 : twice";
    let faces = vec![6, 6, 1, 2, 6, 3, 4, 2, 9, 5, 3];
    let one = replay(text, faces.clone()).unwrap();
    let other = replay(text, faces).unwrap();
    assert_eq!(
        one.as_single().unwrap().get_total(),
        other.as_single().unwrap().get_total()
    );
    assert_eq!(one.to_string(), other.to_string());
    assert_eq!(
        one.as_single().unwrap().to_string_history(),
        other.as_single().unwrap().to_string_history()
    );
}

#[test]
fn a_replay_that_runs_out_goes_on_with_ones() {
    assert_eq!(total("3d6", vec![4]), 6);
    assert_eq!(total("2d6", vec![9, 0]), 7);
    let mut source = ReplaySource::new(vec![3, 4, 5]);
    assert_eq!(source.remaining(), 3);
    assert_eq!(source.next_face(6), 3);
    assert_eq!(source.remaining(), 2);
}

#[test]
fn the_thread_rolls_within_the_sides() {
    let res = Roller::new("500d6").unwrap().roll().unwrap();
    let single = res.as_single().unwrap();
    let dice = match &single.get_history()[0] {
        caith::RollHistory::Roll(dice) => dice.clone(),
        _ => unreachable!(),
    };
    assert_eq!(dice.len(), 500);
    assert!(dice.iter().all(|d| 1 <= d.res && d.res <= 6));
    assert!(dice.iter().any(|d| d.res != 6));
    assert_eq!(
        single.get_total(),
        dice.iter().map(|d| d.res as i64).sum::<i64>()
    );
}

#[test]
fn the_query_is_kept_and_trimmed() {
    let mut r = Roller::new("2d6 + 6 : test : more").unwrap();
    assert_eq!(r.as_str(), "2d6 + 6 : test : more");
    r.trim_reason();
    assert_eq!(r.as_str(), "2d6 + 6 ");
    r.trim_reason();
    assert_eq!(r.as_str(), "2d6 + 6 ");
}

fn dices_of(text: &str) -> Vec<String> {
    let mut dices = Roller::new(text).unwrap().dices().unwrap();
    let mut all = Vec::new();
    let expected = dices.len();
    while let Some(d) = dices.next() {
        all.push(d);
    }
    assert_eq!(all.len(), expected);
    assert_eq!(dices.len(), 0);
    assert!(dices.next().is_none());
    all
}

#[test]
fn the_dice_of_a_query_are_listed() {
    assert_eq!(
        dices_of("1d6 + 1d4 + 1d10 + 1d20"),
        vec!["1d6", "1d4", "1d10", "1d20"]
    );
    assert_eq!(
        dices_of(" 2d6 K1 * 3 + (1d4 + 2) - d20 e : why"),
        vec!["2d6 K1", "d20 e"]
    );
    assert_eq!(dices_of("(2d6 + 1d4) ^ 3"), vec!["2d6"]);
    assert!(dices_of("20").is_empty());
    assert!(Roller::new("2d").unwrap().dices().is_err());
}

#[test]
fn the_bounds_can_be_set() {
    let narrow = Limits {
        max_dice: 2,
        max_sides: 8,
        max_iterations: 3,
    };
    assert_eq!(Limits::default().max_dice, 5000);
    assert_eq!(Limits::default().max_sides, 5000);
    assert_eq!(Limits::default().max_iterations, 100);
    let within = |text: &str, faces: Vec<u64>| {
        let mut source = ReplaySource::new(faces);
        let roller = Roller::new(text).unwrap().with_limits(narrow);
        assert_eq!(roller.get_limits(), narrow);
        match roller.roll_with_source(&mut source) {
            Ok(res) => res.as_single().unwrap().to_string(false),
            Err(e) => e.to_string(),
        }
    };
    assert_eq!(within("2d8", vec![3, 8]), "[8, 3] = 11");
    assert_eq!(
        within("3d8", vec![]),
        "Exceed maximum allowed number of dices (2)"
    );
    assert_eq!(within("2d9", vec![]), "Dice can't have more than 8");
    assert_eq!(within("d8 ie", vec![8, 8, 8, 1]), "[8][8, 8, 1] = 25");
    assert_eq!(
        within("d8 ie", vec![8, 8, 8, 8, 1]),
        "Exceed maximum allowed number of explosions or rerolls (3)"
    );
    assert_eq!(within("d8 ir1", vec![1, 1, 1, 2]), "[1 -> 1 -> 1 -> 2] -> [2] = 2");
    assert_eq!(
        within("d8 ir1", vec![1, 1, 1, 1, 2]),
        "Exceed maximum allowed number of explosions or rerolls (3)"
    );
    assert_eq!(within("2d8 e1", vec![3, 8, 4, 5]), "[8, 3][5, 4] = 20");
}

#[test]
fn the_notation_is_read_as_it_is_written() {
    assert_eq!(shown("2d6 + 3d10", vec![1, 2, 3, 4, 5]), "[2, 1] + [5, 4, 3] = 15");
    assert_eq!(shown("3d6 + 5", vec![1, 2, 3]), "[3, 2, 1] + 5 = 11");
    assert_eq!(shown("3d6 * 1.5", vec![1, 2, 4]), "[4, 2, 1] * 1.5 = 10");
    assert_eq!(
        shown("10d6 e6 K8 +4", vec![1, 2, 3, 4, 5, 6, 1, 2, 3, 6, 5, 5]),
        "[6, 6, 5, 4, 3, 3, 2, 2, 1, 1][5, 5] + 4 = 41"
    );
    assert_eq!(shown("3d10 K2", vec![4, 9, 6]), "[9, 6, 4] = 15");
    assert_eq!(shown("4d10 k3", vec![4, 9, 6, 1]), "[9, 6, 4, 1] = 11");
    assert_eq!(shown("  3 d 6  ", vec![1, 2, 3]), "[3, 2, 1] = 6");
    assert_eq!(shown("3d6e6", vec![1, 2, 3]), "[3, 2, 1] = 6");
    assert_eq!(shown("2d6+1d4-1", vec![1, 2, 3]), "[2, 1] + [3] - 1 = 5");
    assert_eq!(shown("- 4 * 2", vec![]), "-4 * 2 = -8");
    assert_eq!(shown("((1d6))", vec![5]), "(([5])) = 5");
    assert_eq!(shown("1d6 t6 f1", vec![1]), "[1] = -1");
    let res = replay("4d6 : Hello World!", vec![1, 2, 3, 4]).unwrap();
    assert_eq!(res.get_reason(), Some(&"Hello World!".to_string()));
    let res = replay("4d6:", vec![1, 2, 3, 4]).unwrap();
    assert_eq!(res.get_reason(), Some(&String::new()));
    assert_eq!(misread_at("3d6 e6 K8 ++ 4"), 10);
    assert_eq!(misread_at("1.5.2"), 3);
    assert_eq!(misread_at("1."), 1);
    assert_eq!(misread_at("3d6 t[1,]"), 4);
    assert_eq!(misread_at("3d6 tt"), 4);
    assert_eq!(misread_at("(1d6) ^"), 6);
    assert_eq!(misread_at("(1d6) ^ 9223372036854775808"), 6);
    assert_eq!(total("9223372036854775807", vec![]), i64::MAX);
    assert_eq!(total("-9223372036854775808", vec![]), i64::MIN);
    assert_eq!(misread_at("9223372036854775808"), 0);
}

#[test]
fn a_replay_of_a_list_shows_that_list() {
    let roller = Roller::new("3d6 + 2 : luck").unwrap();
    let res = roller.roll_replayed(vec![4, 2, 6]).unwrap();
    assert_eq!(res.as_single().unwrap().get_total(), 14);
    assert_eq!(res.get_reason().map(|r| r.as_str()), Some("luck"));
    let again = roller.roll_replayed(vec![4, 2, 6]).unwrap();
    assert_eq!(res.to_string(), again.to_string());

    let mut source = ReplaySource::new(vec![4, 2, 6, 5]);
    let same = roller.roll_with_source(&mut source).unwrap();
    assert_eq!(same.to_string(), res.to_string());
    assert_eq!(source.remaining(), 1);
    assert_eq!(source.next_face(6), 5);

    let other = roller.roll_replayed(vec![4, 2, 5]).unwrap();
    assert_eq!(other.as_single().unwrap().get_total(), 13);
}

#[test]
fn a_replayed_face_is_one_that_the_die_can_show() {
    let roller = Roller::new("2d4").unwrap();
    let res = roller.roll_replayed(vec![9, 0]).unwrap();
    assert_eq!(res.as_single().unwrap().get_total(), 5);
    let short = Roller::new("3d4").unwrap().roll_replayed(vec![]).unwrap();
    assert_eq!(short.as_single().unwrap().get_total(), 3);
    let fudge = Roller::new("2dF").unwrap().roll_replayed(vec![6, 1]).unwrap();
    assert_eq!(fudge.as_single().unwrap().get_total(), 0);
}

#[test]
fn the_text_that_cannot_be_read_rolls_nothing() {
    let mut source = ReplaySource::new(vec![3, 4]);
    assert!(Roller::new("2d6 +").unwrap().roll_with_source(&mut source).is_err());
    assert_eq!(source.remaining(), 2);
    assert!(Roller::new("0d0").unwrap().roll_with_source(&mut source).is_err());
    assert_eq!(source.remaining(), 2);
}

#[test]
fn long_decimal_literals_are_cut_off() {
    assert_eq!(total("1.0000000000000000001", vec![]), 1);
    assert_eq!(shown("2 * 1.0000000000000000009", vec![]), "2 * 1 = 2");
    assert_eq!(total("10 * 0.1234567890123456789", vec![]), 1);
    assert_eq!(
        shown("0.1234567890123456789", vec![]),
        "0.123456789012345678 = 0"
    );
    assert_eq!(total("-1.0000000000000000001 * 3", vec![]), -3);
    assert_eq!(total("9.223372036854775808", vec![]), 9);
    assert_eq!(
        shown("9.223372036854775808", vec![]),
        "9.2233720368547758 = 9"
    );
    assert_eq!(total("99999999999999999999.5", vec![]), i64::MAX);
    assert_eq!(total("-99999999999999999999.5", vec![]), -i64::MAX);
    assert_eq!(total("18446744073709551616.25", vec![]), i64::MAX);
    assert_eq!(misread_at("1.0000000000000000001."), 21);
}

struct Noting {
    faces: Vec<u64>,
    next: usize,
    sides: Vec<u64>,
}

impl DiceRollSource for Noting {
    fn roll_single_die(&mut self, sides: u64) -> u64 {
        self.sides.push(sides);
        let face = self.faces[self.next];
        self.next += 1;
        face
    }
}

#[test]
fn each_term_asks_for_its_own_dice() {
    let mut source = Noting {
        faces: vec![3, 6, 4, 20, 7, 1, 5],
        next: 0,
        sides: vec![],
    };
    let res = Roller::new("2d6 e6 + 1d20 ie + 2dF")
        .unwrap()
        .roll_with_source(&mut Recorder::new(&mut source))
        .unwrap();
    assert_eq!(res.as_single().unwrap().get_total(), 40);
    assert_eq!(source.sides, vec![6, 6, 6, 20, 20, 6, 6]);
    assert_eq!(source.next, 7);

    let mut source = Noting {
        faces: vec![2, 1, 3, 4, 8],
        next: 0,
        sides: vec![],
    };
    let res = Roller::new("(1d4 r2 + 1d8) ^ 2")
        .unwrap()
        .roll_with_source(&mut Recorder::new(&mut source))
        .unwrap();
    assert_eq!(res.as_repeated().unwrap().len(), 2);
    assert_eq!(source.sides, vec![4, 4, 8, 4, 8]);

    let mut source = Noting {
        faces: vec![5],
        next: 0,
        sides: vec![],
    };
    assert!(Roller::new("1 / 0 + 1d6")
        .unwrap()
        .roll_with_source(&mut Recorder::new(&mut source))
        .is_err());
    assert!(Roller::new("9223372036854775807 + 1 + 1d6")
        .unwrap()
        .roll_with_source(&mut Recorder::new(&mut source))
        .is_err());
    assert!(source.sides.is_empty());
    assert!(Roller::new("1d6 / 0 + 1d8")
        .unwrap()
        .roll_with_source(&mut Recorder::new(&mut source))
        .is_err());
    assert_eq!(source.sides, vec![6]);
}
