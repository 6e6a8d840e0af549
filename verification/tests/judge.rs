use ore_board::{can_replay, compute_score_details, get_max_turn, simulate, Action, Input, Output, SimError};

fn grid(lines: &[&str]) -> Input {
    Input { N: lines.len(), M: 1, cs: lines.iter().map(|l| l.chars().collect()).collect() }
}

fn row(inp: &Vec<Vec<char>>, i: usize) -> String {
    inp[i].iter().collect()
}

const U: usize = 0;
const D: usize = 1;
const L: usize = 2;
const R: usize = 3;

#[test]
fn carrying_an_ore_into_its_hole() {
    let inp = grid(&["Aa.", "...", "..."]);
    let acts = vec![Action::Move(R), Action::Carry(L)];
    let res = compute_score_details(&inp, &acts);
    assert_eq!(res.err, "");
    assert_eq!(res.error, None);
    assert_eq!((res.delivered, res.ores), (1, 1));
    assert_eq!(res.pos, (0, 0));
    assert_eq!(row(&res.cs, 0), "A..");
}

#[test]
fn carrying_onto_an_empty_cell_moves_the_item() {
    let inp = grid(&["A..", ".a.", "..."]);
    let acts = vec![Action::Move(D), Action::Move(R), Action::Carry(D)];
    let res = compute_score_details(&inp, &acts);
    assert_eq!(res.err, "");
    assert_eq!(res.pos, (2, 1));
    assert_eq!(row(&res.cs, 1), "...");
    assert_eq!(row(&res.cs, 2), ".a.");
    assert_eq!((res.delivered, res.ores), (0, 1));
}

#[test]
fn moving_off_the_grid() {
    let inp = grid(&["A..", "...", "..."]);
    let res = compute_score_details(&inp, &[Action::Move(R), Action::Move(U)]);
    assert_eq!(res.err, "Out of the board (turn 1)");
    assert_eq!(res.error, Some((SimError::OutOfBoard, 1)));
    assert_eq!(res.pos, (usize::MAX, 1));
}

#[test]
fn carrying_nothing() {
    let inp = grid(&["A..", "...", "..."]);
    let res = compute_score_details(&inp, &[Action::Carry(R)]);
    assert_eq!(res.err, "No item to carry (turn 0)");
    assert_eq!(res.error, Some((SimError::NoItemToCarry, 0)));
}

#[test]
fn rolling_nothing() {
    let inp = grid(&["A..", "...", "..."]);
    let res = compute_score_details(&inp, &[Action::Move(D), Action::Roll(R)]);
    assert_eq!(res.err, "No item to roll (turn 1)");
}

#[test]
fn carrying_into_a_rock() {
    let inp = grid(&["Aa@", "...", "..."]);
    let res = compute_score_details(&inp, &[Action::Move(R), Action::Carry(R)]);
    assert_eq!(res.err, "Collision (turn 1)");
    assert_eq!(res.pos, (0, 2));
    assert_eq!(row(&res.cs, 0), "A.@");
}

#[test]
fn carrying_out_of_the_grid() {
    let inp = grid(&["A.a", "...", "..."]);
    let res = compute_score_details(&inp, &[Action::Move(R), Action::Move(R), Action::Carry(R)]);
    assert_eq!(res.err, "Out of the board (turn 2)");
    assert_eq!(row(&res.cs, 0), "A..");
}

#[test]
fn rolling_into_the_hole() {
    let inp = grid(&["A.a..", ".....", ".....", ".....", "....."]);
    let acts = vec![Action::Move(R), Action::Move(R), Action::Roll(L)];
    let res = compute_score_details(&inp, &acts);
    assert_eq!(res.err, "");
    assert_eq!((res.delivered, res.ores), (1, 1));
    assert_eq!(row(&res.cs, 0), "A....");
    assert_eq!(res.pos, (0, 2));
}

#[test]
fn rolling_to_the_edge() {
    let inp = grid(&["A.a..", ".....", ".....", ".....", "....."]);
    let acts = vec![Action::Move(R), Action::Move(R), Action::Roll(R)];
    let res = compute_score_details(&inp, &acts);
    assert_eq!(res.err, "");
    assert_eq!(row(&res.cs, 0), "A...a");
}

#[test]
fn rolling_stops_before_an_item() {
    let inp = grid(&["A.....", "......", "..a...", "......", "..@...", "......"]);
    let acts = vec![Action::Move(D), Action::Move(D), Action::Move(R), Action::Move(R), Action::Roll(D)];
    let res = compute_score_details(&inp, &acts);
    assert_eq!(res.err, "");
    assert_eq!(row(&res.cs, 2), "......");
    assert_eq!(row(&res.cs, 3), "..a...");
    assert_eq!(row(&res.cs, 4), "..@...");
}

#[test]
fn a_rock_in_a_hole_disappears_without_score() {
    let inp = grid(&["A@.", "...", "..."]);
    let res = compute_score_details(&inp, &[Action::Move(R), Action::Carry(L)]);
    assert_eq!(res.err, "");
    assert_eq!((res.delivered, res.ores), (0, 0));
    assert_eq!(row(&res.cs, 0), "A..");
}

#[test]
fn an_ore_in_another_kinds_hole_scores_nothing() {
    let inp = grid(&["Ab.", "...", "..."]);
    let res = compute_score_details(&inp, &[Action::Move(R), Action::Carry(L)]);
    assert_eq!((res.delivered, res.ores), (0, 1));
    assert_eq!(row(&res.cs, 0), "A..");
}

#[test]
fn worker_starts_on_the_last_hole_a() {
    let inp = grid(&["A..", "...", ".aA"]);
    let res = compute_score_details(&inp, &[Action::Carry(L)]);
    assert_eq!(res.err, "No item to carry (turn 0)");
    assert_eq!(res.pos, (2, 2));
    let res = compute_score_details(&inp, &[Action::Move(L), Action::Carry(R)]);
    assert_eq!((res.delivered, res.ores), (1, 1));
}

#[test]
fn no_hole_a_starts_at_the_corner() {
    let inp = grid(&["a..", "...", "..."]);
    let res = compute_score_details(&inp, &[Action::Carry(R)]);
    assert_eq!(res.err, "");
    assert_eq!(res.pos, (0, 1));
    assert_eq!(row(&res.cs, 0), ".a.");
}

#[test]
fn turn_numbers_are_written_in_decimal() {
    let inp = grid(&["A..", "...", "..."]);
    let mut acts = Vec::new();
    for _ in 0..6 {
        acts.push(Action::Move(R));
        acts.push(Action::Move(L));
    }
    acts.push(Action::Move(U));
    let res = compute_score_details(&inp, &acts);
    assert_eq!(res.err, "Out of the board (turn 12)");
}

#[test]
fn a_replay_stops_after_the_given_turns() {
    let inp = grid(&["Aa.", "...", "..."]);
    let acts = vec![Action::Move(R), Action::Carry(L), Action::Move(U)];
    let r0 = simulate(&inp, &acts, 0);
    assert_eq!((r0.pos, r0.delivered, r0.err.as_str()), ((0, 0), 0, ""));
    let r1 = simulate(&inp, &acts, 1);
    assert_eq!((r1.pos, r1.delivered), ((0, 1), 0));
    let r2 = simulate(&inp, &acts, 2);
    assert_eq!((r2.pos, r2.delivered), ((0, 0), 1));
    let r3 = simulate(&inp, &acts, 3);
    assert_eq!(r3.err, "Out of the board (turn 2)");
}

#[test]
fn an_error_stays_for_later_turns() {
    let inp = grid(&["A..", "...", "..."]);
    let acts = vec![Action::Move(U), Action::Move(D), Action::Move(D)];
    let a = simulate(&inp, &acts, 1);
    let b = simulate(&inp, &acts, 3);
    let c = simulate(&inp, &acts, 100);
    assert_eq!(a.err, "Out of the board (turn 0)");
    assert_eq!((a.pos, a.err.clone()), (b.pos, b.err.clone()));
    assert_eq!((b.pos, b.err), (c.pos, c.err));
}

#[test]
fn turns_past_the_end_show_the_whole_replay() {
    let inp = grid(&["Aa.", "...", "..."]);
    let acts = vec![Action::Move(R), Action::Carry(L)];
    let full = compute_score_details(&inp, &acts);
    let past = simulate(&inp, &acts, 50);
    assert_eq!((full.pos, full.delivered, full.cs), (past.pos, past.delivered, past.cs));
    let out = Output { out: acts };
    assert_eq!(get_max_turn(&inp, &out), 2);
}

#[test]
fn moves_never_change_the_grid() {
    let inp = grid(&["Aa.", ".b.", "@.."]);
    let acts = vec![Action::Move(R), Action::Move(D), Action::Move(L), Action::Move(U)];
    let res = compute_score_details(&inp, &acts);
    assert_eq!(res.cs, inp.cs);
    assert_eq!(res.pos, (0, 0));
}

#[test]
fn delivered_never_exceeds_the_ores() {
    let inp = grid(&["Aaa", "...", "..."]);
    let acts = vec![
        Action::Move(R), Action::Carry(L), Action::Move(R), Action::Move(R), Action::Roll(L),
    ];
    let res = compute_score_details(&inp, &acts);
    assert_eq!(res.err, "");
    assert_eq!((res.delivered, res.ores), (2, 2));
    assert!(res.delivered <= res.ores);
}

#[test]
fn replay_preconditions() {
    let inp = grid(&["A..", "...", "..."]);
    assert!(can_replay(&inp, &[Action::Move(R)], 1));
    assert!(!can_replay(&inp, &[Action::Move(4)], 1));
    assert!(can_replay(&inp, &[Action::Move(4)], 0));
    let short = Input { N: 3, M: 1, cs: vec![vec!['A'; 3], vec!['.'; 2], vec!['.'; 3]] };
    assert!(!can_replay(&short, &[], 0));
    let empty = Input { N: 0, M: 1, cs: vec![] };
    assert!(can_replay(&empty, &[Action::Move(R)], 1));
    assert!(!can_replay(&empty, &[Action::Roll(R)], 1));
}

#[test]
fn empty_grid_with_a_move_leaves_at_once() {
    let empty = Input { N: 0, M: 1, cs: vec![] };
    let res = compute_score_details(&empty, &[Action::Move(D), Action::Roll(R)]);
    assert_eq!(res.err, "Out of the board (turn 0)");
    assert_eq!(res.ores, 0);
}
