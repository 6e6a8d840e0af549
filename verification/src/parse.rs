//! Reading instances and answers from text, and writing instances back.
use vstd::prelude::*;
use vstd::string::*;
use crate::board::{Action, Input, Output, direction_of, letter_dir};
use crate::text::{
    decimal, push_decimal, push_signed_decimal, rows_view, signed_decimal, split_words, str_chars,
    string_push, words, digit_char, no_space, is_space, lemma_words_concat, lemma_word_then_space,
    lemma_decimal_digits,
};

verus! {

/// An ASCII decimal digit.
pub open spec fn is_digit(c: char) -> bool {
    '0' <= c && c <= '9'
}

/// A non-empty run of ASCII decimal digits.
pub open spec fn all_digits(s: Seq<char>) -> bool {
    s.len() > 0 && forall|i: int| 0 <= i < s.len() ==> is_digit(#[trigger] s[i])
}

/// The number that a run of digits writes.
pub open spec fn digits_value(s: Seq<char>) -> nat
    decreases s.len(),
{
    if s.len() == 0 {
        0
    } else {
        digits_value(s.drop_last()) * 10 + (s.last() as nat - 48) as nat
    }
}

/// What `str::parse::<i32>` gives: an optional sign `+` or `-` and at least
/// one digit, within `i32`'s range.
pub open spec fn parse_i32(s: Seq<char>) -> Option<i32> {
    if s.len() > 0 && s[0] == '-' {
        let r = s.drop_first();
        if all_digits(r) && digits_value(r) <= 0x8000_0000 {
            Some((-digits_value(r)) as i32)
        } else {
            None
        }
    } else {
        let r = if s.len() > 0 && s[0] == '+' { s.drop_first() } else { s };
        if all_digits(r) && digits_value(r) <= 0x7fff_ffff {
            Some(digits_value(r) as i32)
        } else {
            None
        }
    }
}

/// What `str::parse::<usize>` gives: an optional `+` and at least one digit,
/// within `usize`'s range.
pub open spec fn parse_usize(s: Seq<char>) -> Option<usize> {
    let r = if s.len() > 0 && s[0] == '+' { s.drop_first() } else { s };
    if all_digits(r) && digits_value(r) <= usize::MAX {
        Some(digits_value(r) as usize)
    } else {
        None
    }
}

/// Appending a digit to a run of digits.
proof fn lemma_digits_push(s: Seq<char>, c: char)
    ensures
        digits_value(s.push(c)) == digits_value(s) * 10 + (c as nat - 48) as nat,
{
    assert(s.push(c).drop_last() =~= s);
}

/// Reads the run of digits `s[from..]` as a number, capped: the exact value
/// when it is at most `cap`, and something above `cap` otherwise.
fn digits_capped(s: &Vec<char>, from: usize, cap: u128) -> (res: Option<u128>)
    requires
        from <= s@.len(),
        cap <= 0xffff_ffff_ffff_ffff,
    ensures
        match res {
            None => !all_digits(s@.skip(from as int)),
            Some(v) => all_digits(s@.skip(from as int)) && (if digits_value(s@.skip(from as int)) <= cap {
                v == digits_value(s@.skip(from as int))
            } else {
                v > cap
            }),
        },
{
    let n = s.len();
    if from >= n {
        return None;
    }
    let mut v: u128 = 0;
    let mut i: usize = from;
    while i < n
        invariant
            from <= i <= n,
            n == s@.len(),
            cap <= 0xffff_ffff_ffff_ffff,
            forall|k: int| from <= k < i ==> is_digit(#[trigger] s@[k]),
            digits_value(s@.subrange(from as int, i as int)) <= cap ==> v == digits_value(s@.subrange(from as int, i as int)),
            digits_value(s@.subrange(from as int, i as int)) > cap ==> v > cap,
            v <= cap + 1,
        decreases n - i,
    {
        let c = s[i];
        if !('0' <= c && c <= '9') {
            assert(s@.skip(from as int)[i - from] == c);
            return None;
        }
        let d: u128 = (c as u32 - 48) as u128;
        proof {
            assert(s@.subrange(from as int, i + 1) =~= s@.subrange(from as int, i as int).push(c));
            lemma_digits_push(s@.subrange(from as int, i as int), c);
        }
        if v <= cap {
            let w = v * 10 + d;
            if w <= cap {
                v = w;
            } else {
                v = cap + 1;
            }
        }
        i = i + 1;
    }
    assert(s@.subrange(from as int, n as int) =~= s@.skip(from as int));
    Some(v)
}

/// Parses a token as `str::parse::<i32>` does.
pub fn parse_i32_chars(s: &Vec<char>) -> (res: Option<i32>)
    ensures
        res == parse_i32(s@),
{
    if s.len() > 0 && s[0] == '-' {
        assert(s@.skip(1) =~= s@.drop_first());
        match digits_capped(s, 1, 0x8000_0000) {
            None => None,
            Some(v) => {
                if v <= 0x8000_0000 {
                    let w: i64 = v as i64;
                    Some((-w) as i32)
                } else {
                    None
                }
            },
        }
    } else {
        let from: usize = if s.len() > 0 && s[0] == '+' { 1 } else { 0 };
        assert(s@.skip(1) =~= s@.drop_first());
        assert(s@.skip(0) =~= s@);
        match digits_capped(s, from, 0x7fff_ffff) {
            None => None,
            Some(v) => {
                if v <= 0x7fff_ffff {
                    Some(v as i32)
                } else {
                    None
                }
            },
        }
    }
}

/// Parses a token as `str::parse::<usize>` does.
pub fn parse_usize_chars(s: &Vec<char>) -> (res: Option<usize>)
    ensures
        res == parse_usize(s@),
{
    let from: usize = if s.len() > 0 && s[0] == '+' { 1 } else { 0 };
    assert(s@.skip(1) =~= s@.drop_first());
    assert(s@.skip(0) =~= s@);
    let cap: u128 = usize::MAX as u128;
    match digits_capped(s, from, cap) {
        None => None,
        Some(v) => {
            if v <= cap {
                Some(v as usize)
            } else {
                None
            }
        },
    }
}


/// A token, if there is one, by its characters.
pub open spec fn token_view(tok: Option<&Vec<char>>) -> Option<Seq<char>> {
    match tok {
        Some(t) => Some(t@),
        None => None,
    }
}

/// A text token, if there is one, by its characters.
pub open spec fn str_token_view(tok: Option<&str>) -> Option<Seq<char>> {
    match tok {
        Some(t) => Some(t@),
        None => None,
    }
}

/// A result whose error is a `String`, with the error by its characters.
pub open spec fn result_view<T>(r: Result<T, String>) -> Result<T, Seq<char>> {
    match r {
        Ok(v) => Ok(v),
        Err(e) => Err(e@),
    }
}

/// Reading an integer token that must lie in `lo..=hi`: the number, or the
/// message `Unexpected EOF` (no token), `Parse error: <token>` or
/// `Out of range: <number>`.
pub open spec fn read_int_result(tok: Option<Seq<char>>, lo: i32, hi: i32) -> Result<i32, Seq<char>> {
    match tok {
        None => Err("Unexpected EOF"@),
        Some(t) => match parse_i32(t) {
            None => Err("Parse error: "@ + t),
            Some(v) => if lo <= v && v <= hi {
                Ok(v)
            } else {
                Err("Out of range: "@ + signed_decimal(v as int))
            },
        },
    }
}

/// Reading a one-character token that must lie in `lo..=hi`: the character,
/// or the message `Unexpected EOF`, `Parse error: <token>` (not exactly one
/// character) or `Out of range: <character>`.
pub open spec fn read_char_result(tok: Option<Seq<char>>, lo: char, hi: char) -> Result<char, Seq<char>> {
    match tok {
        None => Err("Unexpected EOF"@),
        Some(t) => if t.len() != 1 {
            Err("Parse error: "@ + t)
        } else if lo <= t[0] && t[0] <= hi {
            Ok(t[0])
        } else {
            Err("Out of range: "@ + seq![t[0]])
        },
    }
}

/// Appends the characters of `t`.
fn push_chars(s: &mut String, t: &Vec<char>)
    ensures
        final(s)@ == old(s)@ + t@,
{
    let mut i: usize = 0;
    while i < t.len()
        invariant
            i <= t@.len(),
            s@ == old(s)@ + t@.take(i as int),
        decreases t@.len() - i,
    {
        string_push(s, t[i]);
        assert(t@.take(i + 1) =~= t@.take(i as int).push(t@[i as int]));
        i = i + 1;
    }
    assert(t@.take(t@.len() as int) =~= t@);
}

/// Reads an integer token that must lie in `lo..=hi`.
fn read_int_token(tok: Option<&Vec<char>>, lo: i32, hi: i32) -> (r: Result<i32, String>)
    ensures
        result_view(r) == read_int_result(token_view(tok), lo, hi),
{
    match tok {
        None => Err(String::from_str("Unexpected EOF")),
        Some(t) => match parse_i32_chars(t) {
            None => {
                let mut e = String::from_str("Parse error: ");
                push_chars(&mut e, t);
                Err(e)
            },
            Some(v) => {
                if lo <= v && v <= hi {
                    Ok(v)
                } else {
                    let mut e = String::from_str("Out of range: ");
                    push_signed_decimal(&mut e, v as i64);
                    Err(e)
                }
            },
        },
    }
}

/// Reads a one-character token that must lie in `lo..=hi`.
fn read_char_token(tok: Option<&Vec<char>>, lo: char, hi: char) -> (r: Result<char, String>)
    ensures
        result_view(r) == read_char_result(token_view(tok), lo, hi),
{
    match tok {
        None => Err(String::from_str("Unexpected EOF")),
        Some(t) => {
            if t.len() != 1 {
                let mut e = String::from_str("Parse error: ");
                push_chars(&mut e, t);
                Err(e)
            } else if lo <= t[0] && t[0] <= hi {
                Ok(t[0])
            } else {
                let mut e = String::from_str("Out of range: ");
                string_push(&mut e, t[0]);
                assert(e@ =~= "Out of range: "@ + seq![t@[0]]);
                Err(e)
            }
        },
    }
}

/// Reads an integer token that must lie in `lo..=hi`: the number, or the
/// message `Unexpected EOF`, `Parse error: <token>` or `Out of range: <number>`.
pub fn read(token: Option<&str>, lo: i32, hi: i32) -> (r: Result<i32, String>)
    ensures
        result_view(r) == read_int_result(str_token_view(token), lo, hi),
{
    match token {
        None => read_int_token(None, lo, hi),
        Some(t) => {
            let cs = str_chars(t);
            read_int_token(Some(&cs), lo, hi)
        },
    }
}

/// Reads a one-character token that must lie in `lo..=hi`: the character, or
/// the message `Unexpected EOF`, `Parse error: <token>` or
/// `Out of range: <character>`.
pub fn read_char(token: Option<&str>, lo: char, hi: char) -> (r: Result<char, String>)
    ensures
        result_view(r) == read_char_result(str_token_view(token), lo, hi),
{
    match token {
        None => read_char_token(None, lo, hi),
        Some(t) => {
            let cs = str_chars(t);
            read_char_token(Some(&cs), lo, hi)
        },
    }
}

/// The action of kind `kind` (1: move, 2: carry, 3: roll) in direction `d`.
pub open spec fn action_of(kind: i32, d: usize) -> Action {
    if kind == 1 {
        Action::Move(d)
    } else if kind == 2 {
        Action::Carry(d)
    } else {
        Action::Roll(d)
    }
}

/// The actions written by a list of tokens: pairs of a kind `1..=3` and a
/// direction letter `U`, `D`, `L` or `R`; or the message of the first pair
/// that is wrong (`Invalid direction: <letter>` for a capital letter that is
/// no direction).
pub open spec fn parse_actions(toks: Seq<Seq<char>>) -> Result<Seq<Action>, Seq<char>>
    decreases toks.len(),
{
    if toks.len() == 0 {
        Ok(seq![])
    } else {
        match read_int_result(Some(toks[0]), 1, 3) {
            Err(e) => Err(e),
            Ok(a) => if toks.len() < 2 {
                Err("Unexpected EOF"@)
            } else {
                match read_char_result(Some(toks[1]), 'A', 'Z') {
                    Err(e) => Err(e),
                    Ok(c) => match letter_dir(c) {
                        None => Err("Invalid direction: "@ + seq![c]),
                        Some(d) => match parse_actions(toks.skip(2)) {
                            Err(e) => Err(e),
                            Ok(rest) => Ok(seq![action_of(a, d)] + rest),
                        },
                    },
                }
            },
        }
    }
}

/// An answer text read as actions, or the message of what is wrong with it:
/// at most 10000 actions (`Too many actions`).
pub open spec fn output_result(text: Seq<char>) -> Result<Seq<Action>, Seq<char>> {
    match parse_actions(words(text)) {
        Err(e) => Err(e),
        Ok(acts) => if acts.len() > 10000 {
            Err("Too many actions"@)
        } else {
            Ok(acts)
        },
    }
}

/// Actions `done` followed by the result of reading the rest.
pub open spec fn after(done: Seq<Action>, r: Result<Seq<Action>, Seq<char>>) -> Result<Seq<Action>, Seq<char>> {
    match r {
        Err(e) => Err(e),
        Ok(rest) => Ok(done + rest),
    }
}

/// Reads an answer: whitespace-separated pairs of an action kind and a
/// direction letter.
pub fn parse_output(input: &Input, f: &str) -> (res: Result<Output, String>)
    ensures
        match res {
            Ok(o) => output_result(f@) == Ok::<Seq<Action>, Seq<char>>(o.out@),
            Err(e) => output_result(f@) == Err::<Seq<Action>, Seq<char>>(e@),
        },
{
    let toks = split_words(f);
    let ghost ts = rows_view(toks@);
    let mut out: Vec<Action> = Vec::new();
    let mut k: usize = 0;
    assert(ts.skip(0) =~= ts);
    while k < toks.len()
        invariant
            k <= toks@.len(),
            ts == rows_view(toks@),
            ts == words(f@),
            parse_actions(ts) == after(out@, parse_actions(ts.skip(k as int))),
        decreases toks@.len() - k,
    {
        let ghost rest = ts.skip(k as int);
        assert(rest[0] == toks@[k as int]@);
        let a = match read_int_token(Some(&toks[k]), 1, 3) {
            Ok(a) => a,
            Err(e) => {
                return Err(e);
            },
        };
        if k + 1 >= toks.len() {
            return Err(String::from_str("Unexpected EOF"));
        }
        assert(rest[1] == toks@[k + 1]@);
        let c = match read_char_token(Some(&toks[k + 1]), 'A', 'Z') {
            Ok(c) => c,
            Err(e) => {
                return Err(e);
            },
        };
        let d = match direction_of(c) {
            Some(d) => d,
            None => {
                let mut e = String::from_str("Invalid direction: ");
                string_push(&mut e, c);
                assert(e@ =~= "Invalid direction: "@ + seq![c]);
                return Err(e);
            },
        };
        let act = if a == 1 {
            Action::Move(d)
        } else if a == 2 {
            Action::Carry(d)
        } else {
            Action::Roll(d)
        };
        assert(rest.skip(2) =~= ts.skip(k + 2));
        let ghost before = out@;
        out.push(act);
        assert(out@ =~= before + seq![act]);
        assert(after(before, parse_actions(rest)) == after(out@, parse_actions(ts.skip(k + 2)))) by {
            match parse_actions(ts.skip(k + 2)) {
                Ok(r) => {
                    assert(before + (seq![act] + r) =~= out@ + r);
                },
                Err(e) => {},
            }
        }
        k = k + 2;
    }
    assert(ts.skip(k as int) =~= Seq::<Seq<char>>::empty());
    assert(out@ + Seq::<Action>::empty() =~= out@);
    if out.len() > 10000 {
        return Err(String::from_str("Too many actions"));
    }
    Ok(Output { out })
}


/// An instance text read as `N`, `M` and the `N` row tokens that follow, as
/// whitespace-separated tokens; `None` when a number does not parse or rows
/// are missing.
pub open spec fn input_result(text: Seq<char>) -> Option<(usize, usize, Seq<Seq<char>>)> {
    let ts = words(text);
    if ts.len() < 2 {
        None
    } else {
        match (parse_usize(ts[0]), parse_usize(ts[1])) {
            (Some(n), Some(m)) => if ts.len() >= 2 + n {
                Some((n, m, ts.subrange(2, 2 + n)))
            } else {
                None
            },
            _ => None,
        }
    }
}

/// Reads an instance: `N`, `M`, then `N` rows, as whitespace-separated
/// tokens; `None` when a number does not parse or rows are missing.
pub fn try_parse_input(f: &str) -> (res: Option<Input>)
    ensures
        match res {
            None => input_result(f@) is None,
            Some(inp) => input_result(f@) == Some((inp.N, inp.M, inp.board())),
        },
{
    let toks = split_words(f);
    let ghost ts = rows_view(toks@);
    if toks.len() < 2 {
        return None;
    }
    let n = match parse_usize_chars(&toks[0]) {
        Some(n) => n,
        None => {
            return None;
        },
    };
    let m = match parse_usize_chars(&toks[1]) {
        Some(m) => m,
        None => {
            return None;
        },
    };
    if toks.len() - 2 < n {
        return None;
    }
    let mut rows = toks;
    let mut cs = rows.split_off(2);
    cs.truncate(n);
    assert(rows_view(cs@) =~= ts.subrange(2, 2 + n));
    Some(Input { N: n, M: m, cs })
}

/// Reads an instance that is known to be well formed.
pub fn parse_input(f: &str) -> (inp: Input)
    requires
        input_result(f@) is Some,
    ensures
        input_result(f@) == Some((inp.N, inp.M, inp.board())),
{
    match try_parse_input(f) {
        Some(inp) => inp,
        None => {
            assert(false);
            Input { N: 0, M: 0, cs: Vec::new() }
        },
    }
}

/// The rows, each followed by a line break.
pub open spec fn rows_text(rows: Seq<Seq<char>>) -> Seq<char>
    decreases rows.len(),
{
    if rows.len() == 0 {
        seq![]
    } else {
        rows_text(rows.drop_last()) + rows.last() + seq!['\n']
    }
}

/// An instance as text: `N M` on the first line, then the first `N` rows.
pub open spec fn input_text(n: usize, m: usize, b: Seq<Seq<char>>) -> Seq<char> {
    decimal(n as nat) + seq![' '] + decimal(m as nat) + seq!['\n'] + rows_text(b.take(n as int))
}

impl Input {
    /// The instance as text, in the format `parse_input` reads.
    pub fn to_text(&self) -> (s: String)
        requires
            self.N <= self.cs@.len(),
        ensures
            s@ == input_text(self.N, self.M, self.board()),
    {
        let mut s = String::new();
        push_decimal(&mut s, self.N as u64);
        string_push(&mut s, ' ');
        push_decimal(&mut s, self.M as u64);
        string_push(&mut s, '\n');
        let ghost head = s@;
        let ghost b = self.board();
        let mut i: usize = 0;
        assert(b.take(0) =~= Seq::<Seq<char>>::empty());
        while i < self.N
            invariant
                i <= self.N,
                self.N <= self.cs@.len(),
                b == self.board(),
                s@ == head + rows_text(b.take(i as int)),
            decreases self.N - i,
        {
            push_chars(&mut s, &self.cs[i]);
            string_push(&mut s, '\n');
            assert(b.take(i + 1).drop_last() =~= b.take(i as int));
            assert(b.take(i + 1).last() == self.cs@[i as int]@);
            assert(s@ =~= head + rows_text(b.take(i + 1)));
            i = i + 1;
        }
        s
    }
}


/// Decimal notation reads back as its number.
proof fn lemma_decimal_value(n: nat)
    ensures
        digits_value(decimal(n)) == n,
    decreases n,
{
    let d = digit_char(n % 10);
    assert(d as nat == n % 10 + 48);
    if n < 10 {
        assert(decimal(n) =~= Seq::<char>::empty().push(d));
        lemma_digits_push(Seq::<char>::empty(), d);
    } else {
        lemma_decimal_value(n / 10);
        lemma_digits_push(decimal(n / 10), d);
    }
}

/// A number written in decimal parses back as that number.
proof fn lemma_parse_decimal(n: usize)
    ensures
        parse_usize(decimal(n as nat)) == Some(n),
{
    lemma_decimal_digits(n as nat);
    lemma_decimal_value(n as nat);
}

/// Rows without spaces, each followed by a line break, read back as the rows.
proof fn lemma_rows_text_words(rows: Seq<Seq<char>>)
    requires
        forall|i: int| 0 <= i < rows.len() ==> (#[trigger] rows[i]).len() > 0 && no_space(rows[i]),
    ensures
        words(rows_text(rows)) == rows,
    decreases rows.len(),
{
    if rows.len() == 0 {
        assert(words(rows_text(rows)) =~= rows);
    } else {
        let front = rows.drop_last();
        lemma_rows_text_words(front);
        let last = rows.last();
        assert(rows[rows.len() - 1] == last);
        let x = rows_text(front);
        if front.len() > 0 {
            assert(x.last() == '\n');
        }
        lemma_words_concat(x, last.push('\n'));
        assert(x + last + seq!['\n'] =~= x + last.push('\n'));
        lemma_word_then_space(last, '\n');
        assert(front.push(last) =~= rows);
    }
}

/// What `to_text` writes, `parse_input` reads back: the same `N`, `M` and
/// the first `N` rows, when those rows are non-empty and hold no white space.
pub proof fn lemma_input_text_roundtrip(n: usize, m: usize, b: Seq<Seq<char>>)
    requires
        n <= b.len(),
        forall|i: int| 0 <= i < n ==> (#[trigger] b[i]).len() > 0 && no_space(b[i]),
    ensures
        input_result(input_text(n, m, b)) == Some((n, m, b.take(n as int))),
{
    let dn = decimal(n as nat);
    let dm = decimal(m as nat);
    let rows = b.take(n as int);
    assert forall|i: int| 0 <= i < rows.len() implies (#[trigger] rows[i]).len() > 0 && no_space(rows[i]) by {
        assert(rows[i] == b[i]);
    }
    lemma_rows_text_words(rows);
    lemma_decimal_digits(n as nat);
    lemma_decimal_digits(m as nat);
    lemma_word_then_space(dn, ' ');
    lemma_word_then_space(dm, '\n');
    let r = rows_text(rows);
    lemma_words_concat(dm.push('\n'), r);
    lemma_words_concat(dn.push(' '), dm.push('\n') + r);
    assert(input_text(n, m, b) =~= dn.push(' ') + (dm.push('\n') + r));
    let ts = words(input_text(n, m, b));
    assert(ts =~= seq![dn] + (seq![dm] + rows));
    assert(ts[0] == dn);
    assert(ts[1] == dm);
    lemma_parse_decimal(n);
    lemma_parse_decimal(m);
    assert(ts.subrange(2, 2 + n) =~= rows);
}


/// Actions read from tokens always carry a valid direction.
proof fn lemma_parse_actions_dirs(toks: Seq<Seq<char>>)
    ensures
        parse_actions(toks) matches Ok(acts) ==> forall|k: int| 0 <= k < acts.len() ==> #[trigger] acts[k].dir() < 4,
    decreases toks.len(),
{
    if toks.len() >= 2 {
        lemma_parse_actions_dirs(toks.skip(2));
        if let Ok(acts) = parse_actions(toks) {
            let rest = parse_actions(toks.skip(2))->Ok_0;
            assert forall|k: int| 0 <= k < acts.len() implies #[trigger] acts[k].dir() < 4 by {
                if k > 0 {
                    assert(acts[k] == rest[k - 1]);
                }
            }
        }
    }
}

/// An answer that reads without error has at most 10000 actions, each with
/// a valid direction.
pub proof fn lemma_parsed_output_valid(text: Seq<char>)
    ensures
        output_result(text) matches Ok(acts) ==> acts.len() <= 10000 && forall|k: int| 0 <= k < acts.len() ==> #[trigger] acts[k].dir() < 4,
{
    lemma_parse_actions_dirs(words(text));
}

}
