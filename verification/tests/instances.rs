use ore_board::{gen_a, gen_b_attempt, gen_c, Input};
use rand::SeedableRng;
use rand_chacha::ChaCha20Rng;

fn count(inp: &Input, ch: char) -> usize {
    inp.cs.iter().map(|r| r.iter().filter(|&&c| c == ch).count()).sum()
}

fn square(inp: &Input) -> bool {
    inp.cs.len() == inp.N && inp.cs.iter().all(|r| r.len() == inp.N)
}

#[test]
fn problem_a_has_one_hole_and_forty_ores_and_rocks() {
    for seed in 0..5u64 {
        let mut rng = ChaCha20Rng::seed_from_u64(seed);
        let inp = gen_a(&mut rng);
        assert_eq!((inp.N, inp.M), (20, 1));
        assert!(square(&inp));
        assert_eq!(count(&inp, 'A'), 1);
        assert_eq!(count(&inp, 'a'), 40);
        assert_eq!(count(&inp, '@'), 40);
        assert_eq!(count(&inp, '.'), 400 - 81);
    }
}

#[test]
fn problem_a_depends_on_the_seed_only() {
    let a = gen_a(&mut ChaCha20Rng::seed_from_u64(7));
    let b = gen_a(&mut ChaCha20Rng::seed_from_u64(7));
    let c = gen_a(&mut ChaCha20Rng::seed_from_u64(8));
    assert_eq!(a.cs, b.cs);
    assert_ne!(a.cs, c.cs);
}

fn reachable_all(inp: &Input, hole: char, ore: char) -> bool {
    let n = inp.N;
    let mut start = (0, 0);
    for i in 0..n {
        for j in 0..n {
            if inp.cs[i][j] == hole {
                start = (i, j);
            }
        }
    }
    let mut seen = vec![vec![false; n]; n];
    let mut stack = vec![start];
    seen[start.0][start.1] = true;
    while let Some((i, j)) = stack.pop() {
        let near = [(i.wrapping_sub(1), j), (i + 1, j), (i, j.wrapping_sub(1)), (i, j + 1)];
        for (a, b) in near {
            if a < n && b < n && !seen[a][b] && (inp.cs[a][b] == '.' || inp.cs[a][b] == ore) {
                seen[a][b] = true;
                stack.push((a, b));
            }
        }
    }
    (0..n).all(|i| (0..n).all(|j| inp.cs[i][j] != ore || seen[i][j]))
}

#[test]
fn problem_b_draws_are_kept_when_every_ore_reaches_its_hole() {
    let mut rng = ChaCha20Rng::seed_from_u64(1);
    let mut kept = 0;
    for _ in 0..200 {
        if let Some(inp) = gen_b_attempt(&mut rng) {
            kept += 1;
            assert_eq!((inp.N, inp.M), (20, 3));
            assert!(square(&inp));
            for ch in ['A', 'B', 'C'] {
                assert_eq!(count(&inp, ch), 1);
            }
            for ch in ['a', 'b', 'c'] {
                assert_eq!(count(&inp, ch), 20);
            }
            assert_eq!(count(&inp, '@'), 0);
            assert!(reachable_all(&inp, 'A', 'a'));
            assert!(reachable_all(&inp, 'B', 'b'));
            assert!(reachable_all(&inp, 'C', 'c'));
        }
        if kept >= 3 {
            break;
        }
    }
    assert!(kept >= 1);
}

#[test]
fn problem_c_rocks_are_the_noisiest_half() {
    let keys: Vec<u64> = (0..400u64).map(|k| (k * 7919) % 400).collect();
    let mut rng = ChaCha20Rng::seed_from_u64(3);
    let inp = gen_c(&keys, &mut rng);
    assert_eq!((inp.N, inp.M), (20, 1));
    assert!(square(&inp));
    assert_eq!(count(&inp, '@'), 200);
    assert_eq!(count(&inp, 'A'), 1);
    assert_eq!(count(&inp, 'a'), 40);
    for i in 0..20 {
        for j in 0..20 {
            assert_eq!(inp.cs[i][j] == '@', keys[i * 20 + j] >= 200);
        }
    }
}

#[test]
fn problem_c_ties_keep_row_major_order() {
    let keys: Vec<u64> = vec![5; 400];
    let inp = gen_c(&keys, &mut ChaCha20Rng::seed_from_u64(0));
    for i in 0..20 {
        for j in 0..20 {
            assert_eq!(inp.cs[i][j] == '@', i >= 10);
        }
    }
}

#[test]
fn generated_instances_read_back_from_their_text() {
    let mut rng = ChaCha20Rng::seed_from_u64(11);
    let a = gen_a(&mut rng);
    let back = ore_board::parse_input(&a.to_text());
    assert_eq!((back.N, back.M, back.cs), (a.N, a.M, a.cs));
    let keys: Vec<u64> = (0..400u64).rev().collect();
    let c = gen_c(&keys, &mut rng);
    let back = ore_board::parse_input(&c.to_text());
    assert_eq!((back.N, back.M, back.cs), (c.N, c.M, c.cs));
}

#[test]
fn parsed_answers_replay_on_generated_instances() {
    let inp = gen_a(&mut ChaCha20Rng::seed_from_u64(5));
    let out = ore_board::parse_output(&inp, "1 R 2 D 3 L 1 U").unwrap();
    assert!(out.out.iter().all(|a| match a {
        ore_board::Action::Move(d) | ore_board::Action::Carry(d) | ore_board::Action::Roll(d) => *d < 4,
    }));
    assert!(ore_board::can_replay(&inp, &out.out, out.out.len()));
    let res = ore_board::compute_score_details(&inp, &out.out);
    assert!(res.delivered <= res.ores);
    assert_eq!(res.ores, 40);
}
