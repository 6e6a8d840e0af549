use ore_board::{board_picture, draw_board, simulate, Action, Input, Shape};
use svg::node::element::{Rectangle, Style, Text};

fn expected(cs: &Vec<Vec<char>>, n: usize, pos: (usize, usize)) -> String {
    let w = 20;
    let total = (n * w) as i32;
    let mut doc = svg::Document::new()
        .set("id", "vis")
        .set("viewBox", (0, 0, total, total))
        .set("width", total)
        .set("height", total)
        .set("style", "background-color:white");
    doc = doc.add(Style::new(format!(
        "text {{text-anchor: middle;dominant-baseline: central; font-size: {}}}",
        10
    )));
    for i in 0..n {
        for j in 0..n {
            let fill = if (i, j) == pos { "#FFC0CB" } else { "#FFFFFF" };
            doc = doc.add(
                Rectangle::new()
                    .set("x", (j * w) as i32)
                    .set("y", (i * w) as i32)
                    .set("width", w)
                    .set("height", w)
                    .set("fill", fill)
                    .set("opacity", 0.7)
                    .set("stroke", "black")
                    .set("stroke-width", 1),
            );
            if cs[i][j] != '.' {
                doc = doc.add(
                    Text::new("")
                        .set("x", (j * w + w / 2) as i32)
                        .set("y", (i * w + w / 2) as i32)
                        .set("fill", "black")
                        .add(svg::node::Text::new(cs[i][j].to_string())),
                );
            }
        }
    }
    doc.to_string()
}

#[test]
fn board_drawing_marks_the_worker_and_writes_items() {
    let cs: Vec<Vec<char>> = vec!["A.".chars().collect(), "a@".chars().collect()];
    let svg = draw_board(2, &cs, (1, 0));
    assert_eq!(svg, expected(&cs, 2, (1, 0)));
    assert!(svg.contains("#FFC0CB"));
    assert!(svg.contains("opacity=\"0.7\""));
    assert!(svg.contains(">@<") || svg.contains("@"));
}

#[test]
fn drawing_a_replayed_board() {
    let inp = Input { N: 3, M: 1, cs: vec!["Aa.".chars().collect(), "...".chars().collect(), "...".chars().collect()] };
    let res = simulate(&inp, &[Action::Move(3), Action::Carry(2)], 2);
    let svg = draw_board(3, &res.cs, res.pos);
    assert_eq!(svg, expected(&res.cs, 3, res.pos));
}

#[test]
fn board_picture_lists_squares_and_characters_row_by_row() {
    let cs: Vec<Vec<char>> = vec!["A.".chars().collect(), ".a".chars().collect()];
    let shapes = board_picture(2, &cs, (1, 1));
    assert_eq!(
        shapes,
        vec![
            Shape::Cell { x: 0, y: 0, worker: false },
            Shape::Label { x: 10, y: 10, ch: 'A' },
            Shape::Cell { x: 20, y: 0, worker: false },
            Shape::Cell { x: 0, y: 20, worker: false },
            Shape::Cell { x: 20, y: 20, worker: true },
            Shape::Label { x: 30, y: 30, ch: 'a' },
        ]
    );
}
