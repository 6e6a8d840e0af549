use ore_board::{parse_input, try_parse_input, Input};

fn rows(lines: &[&str]) -> Vec<Vec<char>> {
    lines.iter().map(|l| l.chars().collect()).collect()
}

#[test]
fn reads_size_kinds_and_rows() {
    let inp = parse_input("3 1\nA..\n.a.\n..@\n");
    assert_eq!(inp.N, 3);
    assert_eq!(inp.M, 1);
    assert_eq!(inp.cs, rows(&["A..", ".a.", "..@"]));
}

#[test]
fn extra_tokens_after_the_rows_are_ignored() {
    let inp = parse_input("2 3 Ab .. trailing words");
    assert_eq!(inp.N, 2);
    assert_eq!(inp.M, 3);
    assert_eq!(inp.cs, rows(&["Ab", ".."]));
}

#[test]
fn malformed_instances_are_refused() {
    assert!(try_parse_input("").is_none());
    assert!(try_parse_input("3").is_none());
    assert!(try_parse_input("x 1 A").is_none());
    assert!(try_parse_input("1 -1 A").is_none());
    assert!(try_parse_input("3 1 A.. .a.").is_none());
    assert!(try_parse_input("18446744073709551616 1").is_none());
}

#[test]
fn plus_sign_is_accepted() {
    let inp = try_parse_input("+1 +2 A").unwrap();
    assert_eq!((inp.N, inp.M), (1, 2));
}

#[test]
fn text_roundtrip() {
    let inp = Input { N: 3, M: 2, cs: rows(&["A.b", ".a.", "B.@", "unused"]) };
    let text = inp.to_text();
    assert_eq!(text, "3 2\nA.b\n.a.\nB.@\n");
    let back = parse_input(&text);
    assert_eq!((back.N, back.M), (3, 2));
    assert_eq!(back.cs, rows(&["A.b", ".a.", "B.@"]));
}
