//! The board drawn as SVG with the `svg` crate.
use vstd::prelude::*;
use vstd::string::*;
use svg::Node;
use svg::node::element::{Rectangle, Style, Text};
use crate::sim::{Pos, grid_covers};
use crate::text::{push_signed_decimal, rows_view, signed_decimal, string_push};

verus! {

/// Elements of an SVG picture given by their attributes (name, value): the
/// `rect` elements, then the `text` elements with their text.
pub struct SvgPiece {
    pub rects: Vec<Vec<(String, String)>>,
    pub texts: Vec<(Vec<(String, String)>, String)>,
}

impl DeepView for SvgPiece {
    type V = (Seq<Seq<(Seq<char>, Seq<char>)>>, Seq<(Seq<(Seq<char>, Seq<char>)>, Seq<char>)>);

    open spec fn deep_view(&self) -> Self::V {
        (self.rects.deep_view(), self.texts.deep_view())
    }
}

/// The text that `render_svg` gives for a document with attributes `root`,
/// a `style` element holding `css`, and the elements of `pieces` in order.
pub uninterp spec fn svg_markup(
    root: Seq<(Seq<char>, Seq<char>)>,
    css: Seq<char>,
    pieces: Seq<(Seq<Seq<(Seq<char>, Seq<char>)>>, Seq<(Seq<(Seq<char>, Seq<char>)>, Seq<char>)>)>,
) -> Seq<char>;

/// Renders an SVG document with the `svg` crate: `svg::Document::new` with
/// the attributes `root` (`Node::assign`), a `Style` element holding `css`,
/// then for each piece its `Rectangle` elements and its `Text` elements (each
/// holding a text node), appended in order (`Node::append`), written out by
/// the document's `Display`. The text is claimed to depend on these
/// arguments alone (the crate writes attributes sorted by name); what it is
/// is not stated.
#[verifier::external_body]
fn render_svg(root: Vec<(String, String)>, css: String, pieces: Vec<SvgPiece>) -> (s: String)
    ensures
        s@ == svg_markup(root.deep_view(), css@, pieces.deep_view()),
{
    let mut doc = svg::Document::new();
    for (k, v) in root { doc.assign(k, v); }
    doc.append(Style::new(css));
    for p in pieces {
        for a in p.rects { let mut r = Rectangle::new(); for (k, v) in a { r.assign(k, v); } doc.append(r); }
        for (a, t) in p.texts {
            let mut e = Text::new("");
            for (k, v) in a { e.assign(k, v); }
            e.append(svg::node::Text::new(t));
            doc.append(e);
        }
    }
    doc.to_string()
}

/// A shape of the board's picture: the square of a cell (pink when the
/// worker stands on it), or the character written in a cell's middle.
#[derive(Clone, Copy, Debug, PartialEq, Eq, Structural)]
pub enum Shape {
    Cell { x: i32, y: i32, worker: bool },
    Label { x: i32, y: i32, ch: char },
}

/// The shapes of cell `(i, j)`: its 20-pixel square, then its character
/// unless the cell is empty.
pub open spec fn cell_shapes(b: Seq<Seq<char>>, pos: Pos, i: int, j: int) -> Seq<Shape> {
    let sq = cell_square(pos, i, j);
    if b[i][j] != '.' {
        seq![sq].push(cell_label(b, i, j))
    } else {
        seq![sq]
    }
}

/// The character of cell `(i, j)`, written in its middle.
pub open spec fn cell_label(b: Seq<Seq<char>>, i: int, j: int) -> Shape {
    Shape::Label { x: ((j * 20 + 10) as usize) as i32, y: ((i * 20 + 10) as usize) as i32, ch: b[i][j] }
}

/// The square of cell `(i, j)`, marked when the worker stands on it.
pub open spec fn cell_square(pos: Pos, i: int, j: int) -> Shape {
    Shape::Cell { x: ((j * 20) as usize) as i32, y: ((i * 20) as usize) as i32, worker: pos == (i as usize, j as usize) }
}

/// The shapes of the first `j` cells of row `i`.
pub open spec fn row_shapes(b: Seq<Seq<char>>, pos: Pos, i: int, j: int) -> Seq<Shape>
    decreases j,
{
    if j <= 0 {
        seq![]
    } else {
        row_shapes(b, pos, i, j - 1) + cell_shapes(b, pos, i, j - 1)
    }
}

/// The shapes of the first `i` rows of an `n`-wide board, row by row.
pub open spec fn board_shapes(b: Seq<Seq<char>>, n: usize, pos: Pos, i: int) -> Seq<Shape>
    decreases i,
{
    if i <= 0 {
        seq![]
    } else {
        board_shapes(b, n, pos, i - 1) + row_shapes(b, pos, i - 1, n as int)
    }
}

/// The picture of the `n` by `n` board with the worker at `pos`.
pub fn board_picture(n: usize, cs: &Vec<Vec<char>>, pos: Pos) -> (shapes: Vec<Shape>)
    requires
        grid_covers(rows_view(cs@), n),
        n * n <= usize::MAX,
    ensures
        shapes@ == board_shapes(rows_view(cs@), n, pos, n as int),
{
    let ghost b = rows_view(cs@);
    assert(n * 20 <= usize::MAX) by (nonlinear_arith)
        requires
            n * n <= usize::MAX,
    ;
    let mut shapes: Vec<Shape> = Vec::new();
    let mut i: usize = 0;
    while i < n
        invariant
            i <= n,
            n * 20 <= usize::MAX,
            b == rows_view(cs@),
            grid_covers(b, n),
            shapes@ == board_shapes(b, n, pos, i as int),
        decreases n - i,
    {
        let ghost before = shapes@;
        let mut j: usize = 0;
        while j < n
            invariant
                j <= n,
                i < n,
                n * 20 <= usize::MAX,
                b == rows_view(cs@),
                grid_covers(b, n),
                shapes@ == before + row_shapes(b, pos, i as int, j as int),
            decreases n - j,
        {
            assert(i * 20 + 20 <= n * 20 && j * 20 + 20 <= n * 20) by (nonlinear_arith)
                requires
                    i < n,
                    j < n,
            ;
            let x: i32 = #[verifier::truncate] ((j * 20) as i32);
            let y: i32 = #[verifier::truncate] ((i * 20) as i32);
            let ghost mid = shapes@;
            let worker = i == pos.0 && j == pos.1;
            let sq = Shape::Cell { x, y, worker };
            shapes.push(sq);
            let ghost cell_spec = cell_shapes(b, pos, i as int, j as int);
            assert(sq == cell_square(pos, i as int, j as int));
            assert(b[i as int] == cs@[i as int]@);
            let ch = cs[i][j];
            assert(ch == b[i as int][j as int]);
            if ch != '.' {
                let cx: i32 = #[verifier::truncate] ((j * 20 + 10) as i32);
                let cy: i32 = #[verifier::truncate] ((i * 20 + 10) as i32);
                let lb = Shape::Label { x: cx, y: cy, ch };
                assert(lb == cell_label(b, i as int, j as int));
                assert(cell_spec =~= seq![sq, lb]);
                shapes.push(lb);
            } else {
                assert(cell_spec =~= seq![sq]);
            }
            assert(shapes@ =~= mid + cell_shapes(b, pos, i as int, j as int));
            assert(before + row_shapes(b, pos, i as int, j + 1) =~= before + row_shapes(b, pos, i as int, j as int) + cell_shapes(b, pos, i as int, j as int));
            j = j + 1;
        }
        i = i + 1;
    }
    shapes
}

/// The attributes of a cell's square.
pub open spec fn square_attrs(x: i32, y: i32, worker: bool) -> Seq<(Seq<char>, Seq<char>)> {
    seq![
        ("x"@, signed_decimal(x as int)),
        ("y"@, signed_decimal(y as int)),
        ("width"@, "20"@),
        ("height"@, "20"@),
        ("fill"@, if worker { "#FFC0CB"@ } else { "#FFFFFF"@ }),
        ("opacity"@, "0.7"@),
        ("stroke"@, "black"@),
        ("stroke-width"@, "1"@),
    ]
}

/// The attributes of a cell's character.
pub open spec fn label_attrs(x: i32, y: i32) -> Seq<(Seq<char>, Seq<char>)> {
    seq![("x"@, signed_decimal(x as int)), ("y"@, signed_decimal(y as int)), ("fill"@, "black"@)]
}

/// The SVG elements of a shape: a square is a `rect` of 20 pixels, pink
/// (`#FFC0CB`) under the worker and white (`#FFFFFF`) elsewhere, at opacity
/// 0.7 with a black border of width 1; a character is a black `text`.
pub open spec fn shape_piece(s: Shape) -> (Seq<Seq<(Seq<char>, Seq<char>)>>, Seq<(Seq<(Seq<char>, Seq<char>)>, Seq<char>)>) {
    match s {
        Shape::Cell { x, y, worker } => (seq![square_attrs(x, y, worker)], seq![]),
        Shape::Label { x, y, ch } => (seq![], seq![(label_attrs(x, y), seq![ch])]),
    }
}

/// The attributes of the document: `id` `vis`, a `viewBox` from `0 0` to
/// `total`, `width` and `height` `total`, and a white background.
pub open spec fn root_attrs(total: i32) -> Seq<(Seq<char>, Seq<char>)> {
    let t = signed_decimal(total as int);
    seq![
        ("id"@, "vis"@),
        ("viewBox"@, "0 0 "@ + t + " "@ + t),
        ("width"@, t),
        ("height"@, t),
        ("style"@, "background-color:white"@),
    ]
}

/// The style of the characters: centred, 10 pixels high.
pub open spec fn board_css() -> Seq<char> {
    "text {text-anchor: middle;dominant-baseline: central; font-size: 10}"@
}

/// An attribute from a name and a value.
fn attr(name: &str, value: String) -> (a: (String, String))
    ensures
        a.0@ == name@,
        a.1@ == value@,
{
    (String::from_str(name), value)
}

/// The decimal text of a number.
fn int_text(v: i32) -> (s: String)
    ensures
        s@ == signed_decimal(v as int),
{
    let mut s = String::new();
    push_signed_decimal(&mut s, v as i64);
    s
}

/// The SVG elements of a shape.
fn piece_of(s: Shape) -> (p: SvgPiece)
    ensures
        p.deep_view() == shape_piece(s),
{
    match s {
        Shape::Cell { x, y, worker } => {
            let mut a: Vec<(String, String)> = Vec::new();
            a.push(attr("x", int_text(x)));
            a.push(attr("y", int_text(y)));
            a.push(attr("width", String::from_str("20")));
            a.push(attr("height", String::from_str("20")));
            a.push(attr("fill", String::from_str(if worker { "#FFC0CB" } else { "#FFFFFF" })));
            a.push(attr("opacity", String::from_str("0.7")));
            a.push(attr("stroke", String::from_str("black")));
            a.push(attr("stroke-width", String::from_str("1")));
            assert(a.deep_view() =~= square_attrs(x, y, worker));
            let mut rects: Vec<Vec<(String, String)>> = Vec::new();
            rects.push(a);
            let texts: Vec<(Vec<(String, String)>, String)> = Vec::new();
            let p = SvgPiece { rects, texts };
            assert(p.rects.deep_view() =~= seq![square_attrs(x, y, worker)]);
            assert(p.texts.deep_view() =~= Seq::<(Seq<(Seq<char>, Seq<char>)>, Seq<char>)>::empty());
            p
        },
        Shape::Label { x, y, ch } => {
            let mut a: Vec<(String, String)> = Vec::new();
            a.push(attr("x", int_text(x)));
            a.push(attr("y", int_text(y)));
            a.push(attr("fill", String::from_str("black")));
            assert(a.deep_view() =~= label_attrs(x, y));
            let mut t = String::new();
            string_push(&mut t, ch);
            let rects: Vec<Vec<(String, String)>> = Vec::new();
            let mut texts: Vec<(Vec<(String, String)>, String)> = Vec::new();
            texts.push((a, t));
            let p = SvgPiece { rects, texts };
            assert(p.rects.deep_view() =~= Seq::<Seq<(Seq<char>, Seq<char>)>>::empty());
            assert(p.texts.deep_view() =~= seq![(label_attrs(x, y), seq![ch])]);
            p
        },
    }
}

/// The board drawn as SVG with the `svg` crate: a document of
/// `20 * n` pixels square (attributes `root_attrs`) with the style
/// `board_css` and the SVG elements of the shapes of `board_picture`, in
/// order.
pub fn draw_board(n: usize, cs: &Vec<Vec<char>>, pos: Pos) -> (svg: String)
    requires
        grid_covers(rows_view(cs@), n),
        n * n <= usize::MAX,
    ensures
        svg@ == svg_markup(
            root_attrs(((n * 20) as usize) as i32),
            board_css(),
            board_shapes(rows_view(cs@), n, pos, n as int).map_values(|s: Shape| shape_piece(s)),
        ),
{
    let shapes = board_picture(n, cs, pos);
    assert(n * 20 <= usize::MAX) by (nonlinear_arith)
        requires
            n * n <= usize::MAX,
    ;
    let total: i32 = #[verifier::truncate] ((n * 20) as i32);
    let mut root: Vec<(String, String)> = Vec::new();
    root.push(attr("id", String::from_str("vis")));
    let mut vb = String::from_str("0 0 ");
    push_signed_decimal(&mut vb, total as i64);
    vb.append(" ");
    push_signed_decimal(&mut vb, total as i64);
    root.push(attr("viewBox", vb));
    root.push(attr("width", int_text(total)));
    root.push(attr("height", int_text(total)));
    root.push(attr("style", String::from_str("background-color:white")));
    assert(root.deep_view() =~= root_attrs(total));
    let css = String::from_str("text {text-anchor: middle;dominant-baseline: central; font-size: 10}");
    let mut pieces: Vec<SvgPiece> = Vec::new();
    let mut k: usize = 0;
    while k < shapes.len()
        invariant
            k <= shapes@.len(),
            pieces.deep_view() =~= shapes@.take(k as int).map_values(|s: Shape| shape_piece(s)),
        decreases shapes@.len() - k,
    {
        let p = piece_of(shapes[k]);
        let ghost before = pieces.deep_view();
        let ghost pv = p.deep_view();
        pieces.push(p);
        assert(pieces.deep_view() =~= before.push(pv));
        assert(shapes@.take(k + 1) =~= shapes@.take(k as int).push(shapes@[k as int]));
        k = k + 1;
    }
    assert(shapes@.take(shapes@.len() as int) =~= shapes@);
    render_svg(root, css, pieces)
}

}
