//! Characters, whitespace-separated tokens, decimal numbers and the strings
//! built from them.
use vstd::prelude::*;

verus! {

/// Appends one character to a `String` (std's `String::push`).
#[verifier::external_body]
pub(crate) fn string_push(s: &mut String, c: char)
    ensures
        final(s)@ == old(s)@.push(c),
{
    s.push(c);
}

/// The character of the decimal digit `d` (`d < 10`).
pub open spec fn digit_char(d: nat) -> char {
    ((d + 48) as u8) as char
}

/// Decimal notation of a natural number, without leading zeros.
pub open spec fn decimal(n: nat) -> Seq<char>
    decreases n,
{
    if n < 10 {
        seq![digit_char(n)]
    } else {
        decimal(n / 10).push(digit_char(n % 10))
    }
}

/// Decimal notation of an integer, with a leading `-` when it is negative.
pub open spec fn signed_decimal(v: int) -> Seq<char> {
    if v < 0 {
        seq!['-'] + decimal((-v) as nat)
    } else {
        decimal(v as nat)
    }
}

/// Appends the decimal notation of `n`.
pub fn push_decimal(s: &mut String, n: u64)
    ensures
        final(s)@ == old(s)@ + decimal(n as nat),
    decreases n,
{
    if n >= 10 {
        push_decimal(s, n / 10);
    }
    let d: u8 = (n % 10) as u8;
    string_push(s, (d + 48u8) as char);
}

/// Appends the decimal notation of a signed number.
pub fn push_signed_decimal(s: &mut String, v: i64)
    requires
        v > i64::MIN,
    ensures
        final(s)@ == old(s)@ + signed_decimal(v as int),
{
    if v < 0 {
        string_push(s, '-');
        let m: i64 = -v;
        push_decimal(s, m as u64);
        assert(final(s)@ =~= old(s)@ + signed_decimal(v as int));
    } else {
        push_decimal(s, v as u64);
    }
}

/// Unicode `White_Space`, the characters that `char::is_whitespace` accepts.
pub open spec fn is_space(c: char) -> bool {
    ||| '\u{9}' <= c && c <= '\u{d}'
    ||| c == ' '
    ||| c == '\u{85}'
    ||| c == '\u{a0}'
    ||| c == '\u{1680}'
    ||| '\u{2000}' <= c && c <= '\u{200a}'
    ||| c == '\u{2028}'
    ||| c == '\u{2029}'
    ||| c == '\u{202f}'
    ||| c == '\u{205f}'
    ||| c == '\u{3000}'
}

/// Whether `c` is a white-space character.
pub fn is_space_char(c: char) -> (b: bool)
    ensures
        b == is_space(c),
{
    ('\u{9}' <= c && c <= '\u{d}') || c == ' ' || c == '\u{85}' || c == '\u{a0}' || c == '\u{1680}'
        || ('\u{2000}' <= c && c <= '\u{200a}') || c == '\u{2028}' || c == '\u{2029}' || c
        == '\u{202f}' || c == '\u{205f}' || c == '\u{3000}'
}

/// Length of the run of non-space characters at the front of `s`.
pub open spec fn word_len(s: Seq<char>) -> nat
    decreases s.len(),
{
    if s.len() == 0 || is_space(s[0]) {
        0
    } else {
        1 + word_len(s.drop_first())
    }
}

/// The maximal runs of non-space characters of `s`, in order: what
/// `str::split_whitespace` yields.
pub open spec fn words(s: Seq<char>) -> Seq<Seq<char>>
    decreases s.len(),
{
    if s.len() == 0 {
        seq![]
    } else if is_space(s[0]) {
        words(s.drop_first())
    } else {
        let k = word_len(s);
        proof {
            lemma_word_len_bound(s);
        }
        seq![s.take(k as int)] + words(s.skip(k as int))
    }
}

/// A word is never longer than the text it starts.
pub proof fn lemma_word_len_bound(s: Seq<char>)
    ensures
        word_len(s) <= s.len(),
        s.len() > 0 && !is_space(s[0]) ==> word_len(s) >= 1,
    decreases s.len(),
{
    if s.len() > 0 && !is_space(s[0]) {
        lemma_word_len_bound(s.drop_first());
    }
}

/// The word that starts at `i` ends at the first space at or after `i`.
proof fn lemma_word_len_at(s: Seq<char>, i: int, j: int)
    requires
        0 <= i <= j <= s.len(),
        forall|k: int| i <= k < j ==> !is_space(#[trigger] s[k]),
        j == s.len() || is_space(s[j]),
    ensures
        word_len(s.skip(i)) == j - i,
    decreases j - i,
{
    if i < j {
        lemma_word_len_at(s, i + 1, j);
        assert(s.skip(i).drop_first() =~= s.skip(i + 1));
    }
}

/// The characters of a `&str`.
pub fn str_chars(s: &str) -> (r: Vec<char>)
    ensures
        r@ == s@,
{
    let mut r: Vec<char> = Vec::new();
    for c in it: s.chars()
        invariant
            it.seq() == s@,
            r@ == s@.take(it.index() as int),
    {
        r.push(c);
    }
    assert(r@ == s@.take(s@.len() as int));
    r
}

/// The views of a sequence of character vectors.
pub open spec fn rows_view(rows: Seq<Vec<char>>) -> Seq<Seq<char>> {
    Seq::new(rows.len(), |i: int| rows[i]@)
}

/// Splits a text into its words (the runs of non-space characters).
pub fn split_words(text: &str) -> (res: Vec<Vec<char>>)
    ensures
        rows_view(res@) == words(text@),
{
    let s = str_chars(text);
    let n = s.len();
    let mut res: Vec<Vec<char>> = Vec::new();
    let mut i: usize = 0;
    assert(s@.skip(0) =~= s@);
    while i < n
        invariant
            n == s@.len(),
            s@ == text@,
            i <= n,
            words(s@) =~= rows_view(res@) + words(s@.skip(i as int)),
        decreases n - i,
    {
        if is_space_char(s[i]) {
            assert(s@.skip(i as int).drop_first() =~= s@.skip(i + 1));
            i = i + 1;
        } else {
            let mut w: Vec<char> = Vec::new();
            let mut j: usize = i;
            while j < n && !is_space_char(s[j])
                invariant
                    n == s@.len(),
                    i <= j <= n,
                    w@ =~= s@.subrange(i as int, j as int),
                    forall|k: int| i <= k < j ==> !is_space(#[trigger] s@[k]),
                decreases n - j,
            {
                w.push(s[j]);
                j = j + 1;
            }
            proof {
                lemma_word_len_at(s@, i as int, j as int);
                let t = s@.skip(i as int);
                assert(t.take(j - i) =~= s@.subrange(i as int, j as int));
                assert(t.skip(j - i) =~= s@.skip(j as int));
            }
            let ghost before = rows_view(res@);
            res.push(w);
            assert(rows_view(res@) =~= before.push(s@.subrange(i as int, j as int)));
            i = j;
        }
    }
    assert(s@.skip(n as int) =~= Seq::<char>::empty());
    res
}


/// The first space of `x` at or after `i`, or `x.len()`.
pub open spec fn first_space(x: Seq<char>, i: int) -> int
    decreases x.len() - i,
{
    if i >= x.len() {
        x.len() as int
    } else if is_space(x[i]) {
        i
    } else {
        first_space(x, i + 1)
    }
}

proof fn lemma_first_space(x: Seq<char>, i: int)
    requires
        0 <= i <= x.len(),
    ensures
        i <= first_space(x, i) <= x.len(),
        forall|m: int| i <= m < first_space(x, i) ==> !is_space(#[trigger] x[m]),
        first_space(x, i) == x.len() || is_space(x[first_space(x, i)]),
    decreases x.len() - i,
{
    if i < x.len() && !is_space(x[i]) {
        lemma_first_space(x, i + 1);
    }
}

/// A run of characters none of which is a space.
pub open spec fn no_space(w: Seq<char>) -> bool {
    forall|k: int| 0 <= k < w.len() ==> !is_space(#[trigger] w[k])
}

/// The words of a text that ends in a space (or is empty) do not run into
/// what follows it.
pub proof fn lemma_words_concat(x: Seq<char>, y: Seq<char>)
    requires
        x.len() == 0 || is_space(x.last()),
    ensures
        words(x + y) == words(x) + words(y),
    decreases x.len(),
{
    if x.len() == 0 {
        assert(x + y =~= y);
        assert(words(x) =~= Seq::<Seq<char>>::empty());
        assert(words(y) =~= Seq::<Seq<char>>::empty() + words(y));
    } else if is_space(x[0]) {
        assert((x + y).drop_first() =~= x.drop_first() + y);
        lemma_words_concat(x.drop_first(), y);
        assert((x + y)[0] == x[0]);
    } else {
        lemma_first_space(x, 0);
        let k = first_space(x, 0);
        assert(k < x.len());
        assert forall|m: int| 0 <= m < k implies !is_space(#[trigger] (x + y)[m]) by {
            assert((x + y)[m] == x[m]);
        }
        assert((x + y)[k] == x[k]);
        lemma_word_len_at(x, 0, k);
        lemma_word_len_at(x + y, 0, k);
        assert((x + y).skip(0) =~= x + y);
        assert(x.skip(0) =~= x);
        assert((x + y).take(k) =~= x.take(k));
        assert((x + y).skip(k) =~= x.skip(k) + y);
        lemma_words_concat(x.skip(k), y);
        assert((x + y)[0] == x[0]);
    }
}


/// A word followed by a space is read back as that one word.
pub proof fn lemma_word_then_space(w: Seq<char>, c: char)
    requires
        w.len() > 0,
        no_space(w),
        is_space(c),
    ensures
        words(w.push(c)) == seq![w],
{
    let x = w.push(c);
    assert forall|m: int| 0 <= m < w.len() implies !is_space(#[trigger] x[m]) by {
        assert(x[m] == w[m]);
    }
    lemma_word_len_at(x, 0, w.len() as int);
    assert(x.skip(0) =~= x);
    assert(x.take(w.len() as int) =~= w);
    let rest = x.skip(w.len() as int);
    assert(rest =~= seq![c]);
    assert(rest.drop_first() =~= Seq::<char>::empty());
    assert(words(rest.drop_first()) =~= Seq::<Seq<char>>::empty());
    assert(is_space(rest[0]));
    assert(words(rest) =~= Seq::<Seq<char>>::empty());
    assert(seq![w] + words(rest) =~= seq![w]);
}

/// Decimal notation is a non-empty run of digits without spaces.
pub proof fn lemma_decimal_digits(n: nat)
    ensures
        decimal(n).len() > 0,
        forall|k: int| 0 <= k < decimal(n).len() ==> '0' <= #[trigger] decimal(n)[k] && decimal(n)[k] <= '9',
        no_space(decimal(n)),
    decreases n,
{
    if n >= 10 {
        lemma_decimal_digits(n / 10);
        let s = decimal(n / 10);
        assert forall|k: int| 0 <= k < decimal(n).len() implies '0' <= #[trigger] decimal(n)[k] && decimal(n)[k] <= '9' by {
            if k < s.len() {
                assert(decimal(n)[k] == s[k]);
            }
        }
    }
}


/// The characters of the word at the front of `s` are not spaces.
proof fn lemma_word_chars(s: Seq<char>)
    ensures
        forall|k: int| 0 <= k < word_len(s) ==> !is_space(#[trigger] s[k]),
    decreases s.len(),
{
    lemma_word_len_bound(s);
    if s.len() > 0 && !is_space(s[0]) {
        lemma_word_chars(s.drop_first());
        assert forall|k: int| 0 <= k < word_len(s) implies !is_space(#[trigger] s[k]) by {
            if k > 0 {
                assert(s[k] == s.drop_first()[k - 1]);
            }
        }
    }
}

/// Splitting a text into words cuts it at every Unicode `White_Space`
/// character (tab, line feed, vertical tab, form feed, carriage return,
/// space, U+0085, U+00A0, U+1680, U+2000 to U+200A, U+2028, U+2029, U+202F,
/// U+205F, U+3000): every word is non-empty and holds none of them.
pub proof fn lemma_words_have_no_white_space(s: Seq<char>)
    ensures
        forall|i: int, k: int| 0 <= i < words(s).len() && 0 <= k < words(s)[i].len() ==> {
            let c = #[trigger] words(s)[i][k];
            !(c == '\u{9}' || c == '\u{a}' || c == '\u{b}' || c == '\u{c}' || c == '\u{d}' || c == ' ' || c == '\u{85}' || c == '\u{a0}' || c == '\u{1680}' || ('\u{2000}' <= c && c <= '\u{200a}') || c == '\u{2028}' || c == '\u{2029}' || c == '\u{202f}' || c == '\u{205f}' || c == '\u{3000}')
        },
        forall|i: int| 0 <= i < words(s).len() ==> #[trigger] words(s)[i].len() > 0,
    decreases s.len(),
{
    if s.len() > 0 {
        if is_space(s[0]) {
            lemma_words_have_no_white_space(s.drop_first());
            assert(words(s) == words(s.drop_first()));
        } else {
            let k = word_len(s);
            lemma_word_len_bound(s);
            lemma_word_chars(s);
            lemma_words_have_no_white_space(s.skip(k as int));
            let ws = words(s);
            let rest = words(s.skip(k as int));
            assert(ws == seq![s.take(k as int)] + rest);
            assert forall|i: int, j: int| 0 <= i < ws.len() && 0 <= j < ws[i].len() implies {
                let c = #[trigger] ws[i][j];
                !(c == '\u{9}' || c == '\u{a}' || c == '\u{b}' || c == '\u{c}' || c == '\u{d}' || c == ' ' || c == '\u{85}' || c == '\u{a0}' || c == '\u{1680}' || ('\u{2000}' <= c && c <= '\u{200a}') || c == '\u{2028}' || c == '\u{2029}' || c == '\u{202f}' || c == '\u{205f}' || c == '\u{3000}')
            } by {
                if i == 0 {
                    assert(ws[0] == s.take(k as int));
                    assert(!is_space(s[j]));
                } else {
                    assert(ws[i] == rest[i - 1]);
                }
            }
            assert forall|i: int| 0 <= i < ws.len() implies #[trigger] ws[i].len() > 0 by {
                if i > 0 {
                    assert(ws[i] == rest[i - 1]);
                }
            }
        }
    }
}

/// A non-empty text without any Unicode `White_Space` character is one word.
pub proof fn lemma_word_is_one_word(w: Seq<char>)
    requires
        w.len() > 0,
        forall|k: int| 0 <= k < w.len() ==> {
            let c = #[trigger] w[k];
            !(c == '\u{9}' || c == '\u{a}' || c == '\u{b}' || c == '\u{c}' || c == '\u{d}' || c == ' ' || c == '\u{85}' || c == '\u{a0}' || c == '\u{1680}' || ('\u{2000}' <= c && c <= '\u{200a}') || c == '\u{2028}' || c == '\u{2029}' || c == '\u{202f}' || c == '\u{205f}' || c == '\u{3000}')
        },
    ensures
        words(w) == seq![w],
{
    assert forall|k: int| 0 <= w.len() && 0 <= k < w.len() implies !is_space(#[trigger] w[k]) by {
        let c = w[k];
        assert(!(c == '\u{9}' || c == '\u{a}' || c == '\u{b}' || c == '\u{c}' || c == '\u{d}' || c == ' ' || c == '\u{85}' || c == '\u{a0}' || c == '\u{1680}' || ('\u{2000}' <= c && c <= '\u{200a}') || c == '\u{2028}' || c == '\u{2029}' || c == '\u{202f}' || c == '\u{205f}' || c == '\u{3000}'));
    }
    lemma_word_len_at(w, 0, w.len() as int);
    assert(w.skip(0) =~= w);
    assert(w.take(w.len() as int) =~= w);
    assert(w.skip(w.len() as int) =~= Seq::<char>::empty());
    assert(words(w.skip(w.len() as int)) =~= Seq::<Seq<char>>::empty());
    assert(seq![w] + Seq::<Seq<char>>::empty() =~= seq![w]);
}

}
