use vstd::prelude::*;

use crate::types::{
    digit_char, digits_of, equal, equal_upto, false_text, nil_text, num_text, push_char, same_text, seq_view, show,
    show_items, texts_view, true_text, Datum, MalType,
};

verus! {

/// Unicode white space.
pub open spec fn is_space(c: char) -> bool {
    let u = c as u32;
    (0x09 <= u <= 0x0d) || u == 0x20 || u == 0x85 || u == 0xa0 || u == 0x1680 || (0x2000 <= u
        <= 0x200a) || u == 0x2028 || u == 0x2029 || u == 0x202f || u == 0x205f || u == 0x3000
}

/// Characters that separate tokens and are otherwise ignored.
pub open spec fn is_sep(c: char) -> bool {
    is_space(c) || c == ','
}

/// Characters that form a token of their own.
pub open spec fn is_special(c: char) -> bool {
    c == '[' || c == ']' || c == '{' || c == '}' || c == '(' || c == ')' || c == '\'' || c == '`'
        || c == '~' || c == '^' || c == '@'
}

/// Characters that end a bare token.
pub open spec fn stops_bare(c: char) -> bool {
    is_space(c) || c == '[' || c == ']' || c == '{' || c == '}' || c == '(' || c == ')' || c
        == '\'' || c == '"' || c == '`' || c == ',' || c == ';'
}

pub open spec fn skip_seps(cs: Seq<char>, i: int) -> int
    decreases cs.len() - i,
{
    if 0 <= i < cs.len() && is_sep(cs[i]) {
        skip_seps(cs, i + 1)
    } else {
        i
    }
}

/// The end of a string token whose body starts at `j`: escapes pair a
/// backslash with any character but a newline, and the closing quote is
/// optional.
pub open spec fn string_end(cs: Seq<char>, j: int) -> int
    decreases cs.len() - j,
{
    if j < 0 || j >= cs.len() {
        j
    } else if cs[j] == '\\' {
        if j + 1 < cs.len() && cs[j + 1] != '\n' {
            string_end(cs, j + 2)
        } else {
            j
        }
    } else if cs[j] == '"' {
        j + 1
    } else {
        string_end(cs, j + 1)
    }
}

pub open spec fn bare_end(cs: Seq<char>, j: int) -> int
    decreases cs.len() - j,
{
    if 0 <= j < cs.len() && !stops_bare(cs[j]) {
        bare_end(cs, j + 1)
    } else {
        j
    }
}

pub open spec fn line_end(cs: Seq<char>, j: int) -> int
    decreases cs.len() - j,
{
    if 0 <= j < cs.len() && cs[j] != '\n' {
        line_end(cs, j + 1)
    } else {
        j
    }
}

/// The end of the token (or comment) that starts at `i`.
pub open spec fn token_end(cs: Seq<char>, i: int) -> int {
    if cs[i] == '~' && i + 1 < cs.len() && cs[i + 1] == '@' {
        i + 2
    } else if is_special(cs[i]) {
        i + 1
    } else if cs[i] == '"' {
        string_end(cs, i + 1)
    } else if cs[i] == ';' {
        line_end(cs, i + 1)
    } else {
        bare_end(cs, i + 1)
    }
}

/// The tokens of `cs` from position `i` on; comments are dropped.
pub open spec fn tokens_from(cs: Seq<char>, i: int) -> Seq<Seq<char>>
    decreases cs.len() - i,
{
    let j = skip_seps(cs, i);
    if i < 0 || j < i || j >= cs.len() {
        Seq::empty()
    } else {
        let e = token_end(cs, j);
        if e <= j || e > cs.len() {
            Seq::empty()
        } else if cs[j] == ';' {
            tokens_from(cs, e)
        } else {
            seq![cs.subrange(j, e)] + tokens_from(cs, e)
        }
    }
}

pub open spec fn digit_value(c: char) -> int {
    (c as u32) as int - ('0' as u32) as int
}

pub open spec fn is_digit(c: char) -> bool {
    '0' as u32 <= c as u32 <= '9' as u32
}

pub open spec fn all_digits(d: Seq<char>) -> bool {
    forall|k: int| 0 <= k < d.len() ==> is_digit(#[trigger] d[k])
}

/// The value of a run of decimal digits.
pub open spec fn digits_value(d: Seq<char>) -> int
    decreases d.len(),
{
    if d.len() == 0 {
        0
    } else {
        digits_value(d.drop_last()) * 10 + digit_value(d.last())
    }
}

/// An optional sign and one or more digits whose value fits in 64 bits.
pub open spec fn int_literal(t: Seq<char>) -> Option<int> {
    let signed = t.len() > 0 && (t[0] == '-' || t[0] == '+');
    let start: int = if signed {
        1
    } else {
        0
    };
    let d = t.subrange(start, t.len() as int);
    if d.len() == 0 || !all_digits(d) {
        None
    } else {
        let n = if t[0] == '-' {
            -digits_value(d)
        } else {
            digits_value(d)
        };
        if i64::MIN <= n <= i64::MAX {
            Some(n)
        } else {
            None
        }
    }
}

/// The value that a single token stands for.
pub open spec fn atom(t: Seq<char>) -> Datum {
    if t == true_text() {
        Datum::Bool(true)
    } else if t == false_text() {
        Datum::Bool(false)
    } else if t == nil_text() {
        Datum::Nil
    } else if t.len() >= 2 && t[0] == '"' && t.last() == '"' {
        Datum::Str(t.subrange(1, t.len() - 1))
    } else {
        match int_literal(t) {
            Some(n) => Datum::Num(n),
            None => Datum::Sym(t),
        }
    }
}

pub open spec fn opens(t: Seq<char>) -> bool {
    t.len() > 0 && t[0] == '('
}

pub open spec fn closes(t: Seq<char>) -> bool {
    t.len() > 0 && t[0] == ')'
}

/// The form that starts at token `p`, and the position after it; `None` when a
/// list is not closed before the tokens run out.
pub open spec fn parse_form(ts: Seq<Seq<char>>, p: int) -> Option<(Datum, int)>
    decreases ts.len() - p, 0nat,
{
    if p < 0 {
        None
    } else if p >= ts.len() {
        Some((Datum::Nil, p))
    } else if opens(ts[p]) {
        parse_list(ts, p + 1, Seq::empty())
    } else {
        Some((atom(ts[p]), p + 1))
    }
}

/// The rest of a list whose elements so far are `acc`, from token `p` on.
pub open spec fn parse_list(ts: Seq<Seq<char>>, p: int, acc: Seq<Datum>) -> Option<(Datum, int)>
    decreases ts.len() - p, 1nat,
{
    if p < 0 || p >= ts.len() {
        None
    } else if closes(ts[p]) {
        Some((Datum::List(acc), p + 1))
    } else {
        match parse_form(ts, p) {
            Some((v, q)) => if p < q <= ts.len() {
                parse_list(ts, q, acc.push(v))
            } else {
                None
            },
            None => None,
        }
    }
}

/// What reading a text gives: the first form of its tokens.
pub open spec fn read_text(s: Seq<char>) -> Option<Datum> {
    match parse_form(tokens_from(s, 0), 0) {
        Some((v, _)) => Some(v),
        None => None,
    }
}

/// A symbol whose name reads back as the same symbol: one bare token that is
/// not a keyword nor an integer literal.
pub open spec fn plain_symbol(s: Seq<char>) -> bool {
    &&& s.len() > 0
    &&& forall|i: int| 0 <= i < s.len() ==> !stops_bare(#[trigger] s[i])
    &&& !is_special(s[0])
    &&& s != true_text()
    &&& s != false_text()
    &&& s != nil_text()
    &&& int_literal(s) is None
}

/// Data that printing and reading again leave unchanged: numbers of 64
/// bits, plain symbols, booleans, `nil` and lists of these.
pub open spec fn readable(d: Datum) -> bool
    decreases d, 0nat,
{
    match d {
        Datum::Num(n) => i64::MIN <= n <= i64::MAX,
        Datum::Sym(s) => plain_symbol(s),
        Datum::List(items) => readable_items(items, items.len()),
        Datum::Nil => true,
        Datum::Bool(_) => true,
        _ => false,
    }
}

pub open spec fn readable_items(items: Seq<Datum>, n: nat) -> bool
    decreases items, n,
{
    if n == 0 {
        true
    } else if n > items.len() {
        false
    } else {
        readable_items(items, (n - 1) as nat) && readable(items[n - 1])
    }
}

/// The tokens of the printed form of a value.
pub open spec fn token_seq(d: Datum) -> Seq<Seq<char>>
    decreases d, 0nat,
{
    match d {
        Datum::Num(n) => seq![num_text(n)],
        Datum::Sym(s) => seq![s],
        Datum::List(items) => seq![seq!['(']] + items_tokens(items, items.len()) + seq![seq![')']],
        Datum::Nil => seq![nil_text()],
        Datum::Bool(b) => seq![
            if b {
                true_text()
            } else {
                false_text()
            },
        ],
        _ => Seq::empty(),
    }
}

pub open spec fn items_tokens(items: Seq<Datum>, n: nat) -> Seq<Seq<char>>
    decreases items, n,
{
    if n == 0 || n > items.len() {
        Seq::empty()
    } else {
        items_tokens(items, (n - 1) as nat) + token_seq(items[n - 1])
    }
}

proof fn lemma_digit_char(k: nat)
    requires
        k < 10,
    ensures
        is_digit(digit_char(k)),
        digit_value(digit_char(k)) == k,
{
    if k == 0 {
        assert(digit_char(k) == '0');
    } else if k == 1 {
        assert(digit_char(k) == '1');
    } else if k == 2 {
        assert(digit_char(k) == '2');
    } else if k == 3 {
        assert(digit_char(k) == '3');
    } else if k == 4 {
        assert(digit_char(k) == '4');
    } else if k == 5 {
        assert(digit_char(k) == '5');
    } else if k == 6 {
        assert(digit_char(k) == '6');
    } else if k == 7 {
        assert(digit_char(k) == '7');
    } else if k == 8 {
        assert(digit_char(k) == '8');
    } else {
        assert(digit_char(k) == '9');
    }
}

proof fn lemma_digits(m: nat)
    ensures
        digits_of(m).len() > 0,
        all_digits(digits_of(m)),
        digits_value(digits_of(m)) == m,
    decreases m,
{
    if m < 10 {
        lemma_digit_char(m);
        assert(digits_of(m).drop_last() =~= Seq::empty());
        assert(digits_value(digits_of(m).drop_last()) == 0);
        assert(digits_of(m).last() == digit_char(m));
    } else {
        lemma_digits(m / 10);
        lemma_digit_char(m % 10);
        let t = digits_of(m);
        assert(t.drop_last() =~= digits_of(m / 10));
        assert(t.last() == digit_char(m % 10));
        assert(all_digits(t)) by {
            assert forall|k: int| 0 <= k < t.len() implies is_digit(#[trigger] t[k]) by {
                if k < t.len() - 1 {
                    assert(t[k] == digits_of(m / 10)[k]);
                }
            }
        }
        assert(m == (m / 10) * 10 + m % 10);
    }
}

proof fn lemma_num_atom(n: int)
    requires
        i64::MIN <= n <= i64::MAX,
    ensures
        atom(num_text(n)) == Datum::Num(n),
        num_text(n).len() > 0,
        forall|i: int| 0 <= i < num_text(n).len() ==> !stops_bare(#[trigger] num_text(n)[i]),
        !is_special(num_text(n)[0]),
        num_text(n)[0] != ';' && num_text(n)[0] != '"',
{
    let t = num_text(n);
    if n < 0 {
        lemma_digits((-n) as nat);
        let d = digits_of((-n) as nat);
        assert(t.subrange(1, t.len() as int) =~= d);
        assert forall|i: int| 0 <= i < t.len() implies !stops_bare(#[trigger] t[i]) by {
            if i > 0 {
                assert(t[i] == d[i - 1]);
                assert(is_digit(d[i - 1]));
            }
        }
    } else {
        lemma_digits(n as nat);
        assert(t.subrange(0, t.len() as int) =~= t);
        assert(is_digit(t[0]));
        assert forall|i: int| 0 <= i < t.len() implies !stops_bare(#[trigger] t[i]) by {
            assert(is_digit(t[i]));
        }
    }
    assert(t != true_text() && t != false_text() && t != nil_text()) by {
        if n < 0 {
            assert(t[0] == '-');
        } else {
            assert(is_digit(t[0]));
        }
    }
}

/// The first token of a readable value's tokens neither closes a list nor is
/// missing.
proof fn lemma_first_token(d: Datum)
    requires
        readable(d),
    ensures
        token_seq(d).len() > 0,
        !closes(token_seq(d)[0]),
{
    match d {
        Datum::Num(n) => {
            lemma_num_atom(n);
        },
        Datum::Sym(s) => {
            assert(!stops_bare(s[0]));
        },
        _ => {},
    }
}

/// Parsing the tokens of a readable value from `p` gives the value back and
/// stops just after them.
pub proof fn lemma_parse_readable(d: Datum, ts: Seq<Seq<char>>, p: int)
    requires
        readable(d),
        0 <= p,
        p + token_seq(d).len() <= ts.len(),
        ts.subrange(p, p + token_seq(d).len()) == token_seq(d),
    ensures
        parse_form(ts, p) == Some((d, p + token_seq(d).len())),
    decreases d, 0nat,
{
    let k = token_seq(d).len();
    assert(ts[p] == token_seq(d)[0]);
    match d {
        Datum::Num(n) => {
            lemma_num_atom(n);
        },
        Datum::Sym(s) => {
            assert(!stops_bare(s[0]));
        },
        Datum::List(items) => {
            let it = items_tokens(items, items.len());
            assert(token_seq(d) == seq![seq!['(']] + it + seq![seq![')']]);
            assert(ts.subrange(p + 1, p + 1 + it.len()) =~= it) by {
                assert forall|i: int| 0 <= i < it.len() implies ts.subrange(p + 1, p + 1 + it.len())[i]
                    == it[i] by {
                    assert(ts[p + 1 + i] == ts.subrange(p, p + k)[1 + i]);
                    assert(token_seq(d)[1 + i] == it[i]);
                }
            }
            assert(ts[p + 1 + it.len()] == ts.subrange(p, p + k)[k - 1]);
            assert(token_seq(d)[k - 1] == seq![')']);
            lemma_parse_items(items, 0, ts, p + 1, p + 1 + it.len());
            assert(items.subrange(0, 0) =~= Seq::<Datum>::empty());
            assert(ts[p + 1 + it.len()] == token_seq(d)[k - 1]);
        },
        Datum::Nil => {},
        Datum::Bool(b) => {},
        _ => {},
    }
}

proof fn lemma_items_tokens_split(items: Seq<Datum>, j: nat)
    requires
        j < items.len(),
    ensures
        items_tokens(items, (j + 1) as nat) == items_tokens(items, j) + token_seq(items[j as int]),
{
}

proof fn lemma_readable_items(items: Seq<Datum>, n: nat, j: int)
    requires
        readable_items(items, n),
        0 <= j < n,
    ensures
        readable(items[j]),
    decreases n,
{
    if j < n - 1 {
        lemma_readable_items(items, (n - 1) as nat, j);
    }
}

/// The tokens of the elements `j..` of a list, then `)`, parse to the whole
/// list when `items[..j]` are already read.
proof fn lemma_parse_items(items: Seq<Datum>, j: nat, ts: Seq<Seq<char>>, p: int, e: int)
    requires
        readable_items(items, items.len()),
        j <= items.len(),
        0 <= p,
        e == p + items_tokens(items, items.len()).len(),
        e < ts.len(),
        ts.subrange(p, e) == items_tokens(items, items.len()),
        closes(ts[e]),
    ensures
        parse_list(ts, p + items_tokens(items, j).len(), items.subrange(0, j as int)) == Some(
            (Datum::List(items), e + 1),
        ),
    decreases items, items.len() - j,
{
    lemma_items_prefix(items, j, items.len());
    let q = p + items_tokens(items, j).len();
    if j == items.len() {
        assert(items.subrange(0, j as int) =~= items);
    } else {
        lemma_readable_items(items, items.len(), j as int);
        let x = items[j as int];
        let tx = token_seq(x);
        lemma_items_tokens_split(items, j);
        lemma_items_prefix(items, (j + 1) as nat, items.len());
        assert(ts.subrange(q, q + tx.len()) =~= tx) by {
            assert forall|i: int| 0 <= i < tx.len() implies ts.subrange(q, q + tx.len())[i] == tx[i] by {
                assert(ts[q + i] == ts.subrange(p, e)[q - p + i]);
                assert(items_tokens(items, (j + 1) as nat)[q - p + i] == tx[i]);
            }
        }
        lemma_first_token(x);
        assert(ts[q] == tx[0]);
        lemma_parse_readable(x, ts, q);
        lemma_parse_items(items, (j + 1) as nat, ts, p, e);
        assert(items.subrange(0, j as int).push(x) =~= items.subrange(0, (j + 1) as int));
    }
}

/// The tokens of the first `j` elements are a prefix of those of the first `n`.
proof fn lemma_items_prefix(items: Seq<Datum>, j: nat, n: nat)
    requires
        j <= n <= items.len(),
    ensures
        items_tokens(items, j).len() <= items_tokens(items, n).len(),
        items_tokens(items, n).subrange(0, items_tokens(items, j).len() as int) == items_tokens(
            items,
            j,
        ),
    decreases n,
{
    if j < n {
        lemma_items_prefix(items, j, (n - 1) as nat);
        let a = items_tokens(items, (n - 1) as nat);
        assert(items_tokens(items, n) == a + token_seq(items[n - 1]));
        assert(items_tokens(items, n).subrange(0, items_tokens(items, j).len() as int) =~= a.subrange(
            0,
            items_tokens(items, j).len() as int,
        ));
    } else {
        assert(items_tokens(items, n).subrange(0, items_tokens(items, j).len() as int) =~= items_tokens(
            items,
            j,
        ));
    }
}

proof fn lemma_skip_seps_ge(cs: Seq<char>, i: int)
    ensures
        skip_seps(cs, i) >= i,
    decreases cs.len() - i,
{
    if 0 <= i < cs.len() && is_sep(cs[i]) {
        lemma_skip_seps_ge(cs, i + 1);
    }
}

/// A separator before position `p + 1` adds no token.
proof fn lemma_tokens_skip_sep(cs: Seq<char>, p: int)
    requires
        0 <= p < cs.len(),
        is_sep(cs[p]),
    ensures
        tokens_from(cs, p) == tokens_from(cs, p + 1),
{
    lemma_skip_seps_ge(cs, p + 1);
}

/// A run of characters that do not end a bare token reaches `e`.
proof fn lemma_bare_end(cs: Seq<char>, i: int, e: int)
    requires
        0 <= i <= e <= cs.len(),
        forall|k: int| i <= k < e ==> !stops_bare(#[trigger] cs[k]),
        e == cs.len() || stops_bare(cs[e]),
    ensures
        bare_end(cs, i) == e,
    decreases e - i,
{
    if i < e {
        lemma_bare_end(cs, i + 1, e);
    }
}

/// A bare token `t` at `j`, followed by the end or a character that stops it.
proof fn lemma_tokens_bare(cs: Seq<char>, j: int, t: Seq<char>)
    requires
        0 <= j,
        t.len() > 0,
        j + t.len() <= cs.len(),
        cs.subrange(j, j + t.len()) == t,
        forall|i: int| 0 <= i < t.len() ==> !stops_bare(#[trigger] t[i]),
        !is_special(t[0]),
        j + t.len() == cs.len() || stops_bare(cs[j + t.len()]),
    ensures
        tokens_from(cs, j) == seq![t] + tokens_from(cs, j + t.len()),
{
    let e = j + t.len();
    assert(cs[j] == t[0]);
    assert forall|k: int| j + 1 <= k < e implies !stops_bare(#[trigger] cs[k]) by {
        assert(cs[k] == t[k - j]);
    }
    lemma_bare_end(cs, j + 1, e);
    assert(!stops_bare(t[0]));
}

proof fn lemma_show_items_prefix(items: Seq<Datum>, j: nat, n: nat)
    requires
        j <= n <= items.len(),
    ensures
        show_items(items, j, true).len() <= show_items(items, n, true).len(),
        show_items(items, n, true).subrange(0, show_items(items, j, true).len() as int)
            == show_items(items, j, true),
    decreases n,
{
    if j < n {
        lemma_show_items_prefix(items, j, (n - 1) as nat);
        let a = show_items(items, (n - 1) as nat, true);
        let b = show_items(items, j, true);
        if n == 1 {
            assert(b =~= Seq::empty());
            assert(show_items(items, n, true).subrange(0, 0) =~= b);
        } else {
            assert(show_items(items, n, true) == a + seq![' '] + show(items[n - 1], true));
            assert(show_items(items, n, true).subrange(0, b.len() as int) =~= a.subrange(
                0,
                b.len() as int,
            ));
        }
    } else {
        assert(show_items(items, n, true).subrange(0, show_items(items, j, true).len() as int)
            =~= show_items(items, j, true));
    }
}

/// The tokens of the printed form of a readable value `d` at `j`, when the
/// text goes on with the end, a space or a closing parenthesis.
pub proof fn lemma_tokens_of_printed(d: Datum, cs: Seq<char>, j: int)
    requires
        readable(d),
        0 <= j,
        j + show(d, true).len() <= cs.len(),
        cs.subrange(j, j + show(d, true).len()) == show(d, true),
        j + show(d, true).len() == cs.len() || cs[j + show(d, true).len()] == ' ' || cs[j + show(
            d,
            true,
        ).len()] == ')',
    ensures
        tokens_from(cs, j) == token_seq(d) + tokens_from(cs, j + show(d, true).len()),
    decreases d, 0nat,
{
    let w = show(d, true);
    let e = j + w.len();
    assert(e == cs.len() || stops_bare(cs[e]));
    match d {
        Datum::Num(n) => {
            lemma_num_atom(n);
            lemma_tokens_bare(cs, j, w);
        },
        Datum::Sym(x) => {
            lemma_tokens_bare(cs, j, w);
        },
        Datum::Nil => {
            lemma_tokens_bare(cs, j, w);
        },
        Datum::Bool(b) => {
            lemma_tokens_bare(cs, j, w);
        },
        Datum::List(items) => {
            let si = show_items(items, items.len(), true);
            assert(w == seq!['('] + si + seq![')']);
            assert(cs[j] == w[0]);
            assert(!is_sep(cs[j]));
            lemma_skip_seps_ge(cs, j + 1);
            assert(tokens_from(cs, j) == seq![seq!['(']] + tokens_from(cs, j + 1)) by {
                assert(cs.subrange(j, j + 1) =~= seq!['(']);
            }
            lemma_tokens_items(items, 0, cs, j);
            let it = items_tokens(items, items.len());
            assert(it.subrange(0, it.len() as int) =~= it);
            assert(items_tokens(items, 0).len() == 0);
            assert(token_seq(d) == seq![seq!['(']] + it + seq![seq![')']]);
            assert(token_seq(d) + tokens_from(cs, e) =~= seq![seq!['(']] + (it + seq![seq![')']]
                + tokens_from(cs, e)));
        },
        _ => {},
    }
}

/// Inside the printed list that starts at `j`, the tokens from just after the
/// first `k` elements on are those of the other elements and `)`.
proof fn lemma_tokens_items(items: Seq<Datum>, k: nat, cs: Seq<char>, j: int)
    requires
        readable_items(items, items.len()),
        k <= items.len(),
        0 <= j,
        j + show(Datum::List(items), true).len() <= cs.len(),
        cs.subrange(j, j + show(Datum::List(items), true).len()) == show(Datum::List(items), true),
    ensures
        ({
            let it = items_tokens(items, items.len());
            let p = j + 1 + show_items(items, k, true).len();
            let e = j + show(Datum::List(items), true).len();
            tokens_from(cs, p) == it.subrange(items_tokens(items, k).len() as int, it.len() as int)
                + seq![seq![')']] + tokens_from(cs, e)
        }),
    decreases items, items.len() - k,
{
    let w = show(Datum::List(items), true);
    let si = show_items(items, items.len(), true);
    let it = items_tokens(items, items.len());
    let p = j + 1 + show_items(items, k, true).len();
    let e = j + w.len();
    assert(w == seq!['('] + si + seq![')']);
    lemma_show_items_prefix(items, k, items.len());
    lemma_items_prefix(items, k, items.len());
    if k == items.len() {
        assert(cs[p] == w[w.len() - 1]);
        assert(p + 1 == e);
        lemma_skip_seps_ge(cs, p + 1);
        assert(cs.subrange(p, p + 1) =~= seq![')']);
        assert(it.subrange(items_tokens(items, k).len() as int, it.len() as int) =~= Seq::empty());
    } else {
        lemma_readable_items(items, items.len(), k as int);
        let x = items[k as int];
        let sx = show(x, true);
        let q = if k == 0 {
            p
        } else {
            p + 1
        };
        lemma_show_items_prefix(items, (k + 1) as nat, items.len());
        let nxt = show_items(items, (k + 1) as nat, true);
        assert(nxt == if k == 0 {
            sx
        } else {
            show_items(items, k, true) + seq![' '] + sx
        });
        assert(q + sx.len() == j + 1 + nxt.len());
        assert(cs.subrange(q, q + sx.len()) =~= sx) by {
            assert forall|i: int| 0 <= i < sx.len() implies cs.subrange(q, q + sx.len())[i]
                == sx[i] by {
                let o = q - j - 1 + i;
                assert(cs[q + i] == w[1 + o]);
                assert(w[1 + o] == si[o]);
                assert(si[o] == nxt[o]);
            }
        }
        if k > 0 {
            let o = show_items(items, k, true).len() as int;
            assert(cs[p] == w[1 + o]);
            assert(si[o] == nxt[o]);
            assert(cs[p] == ' ');
            lemma_tokens_skip_sep(cs, p);
        }
        // what follows the element: a space before the next one, or `)`
        let f = q + sx.len();
        if k + 1 < items.len() {
            lemma_show_items_prefix(items, (k + 2) as nat, items.len());
            let nn = show_items(items, (k + 2) as nat, true);
            assert(nn == nxt + seq![' '] + show(items[(k + 1) as int], true));
            assert(cs[f] == w[1 + nxt.len() as int]);
            assert(si[nxt.len() as int] == nn[nxt.len() as int]);
        } else {
            assert(nxt == si);
            assert(cs[f] == w[w.len() - 1]);
        }
        lemma_tokens_of_printed(x, cs, q);
        lemma_tokens_items(items, (k + 1) as nat, cs, j);
        lemma_items_tokens_split(items, k);
        lemma_items_prefix(items, (k + 1) as nat, items.len());
        let a = items_tokens(items, k).len() as int;
        let b = items_tokens(items, (k + 1) as nat).len() as int;
        assert(it.subrange(a, it.len() as int) =~= token_seq(x) + it.subrange(b, it.len() as int)) by {
            assert forall|i: int| 0 <= i < token_seq(x).len() implies it[a + i] == token_seq(x)[i] by {
                assert(it.subrange(0, b)[a + i] == items_tokens(items, (k + 1) as nat)[a + i]);
            }
        }
        assert(tokens_from(cs, p) == tokens_from(cs, q));
    }
}

/// Printing a readable value and reading the text back gives the value
/// again, so printing that gives the same text.
pub proof fn law_read_printed(d: Datum)
    requires
        readable(d),
    ensures
        read_text(show(d, true)) == Some(d),
        show(read_text(show(d, true))->Some_0, true) == show(d, true),
{
    let cs = show(d, true);
    assert(cs.subrange(0, cs.len() as int) =~= cs);
    lemma_tokens_of_printed(d, cs, 0);
    assert(tokens_from(cs, cs.len() as int) =~= Seq::empty()) by {
        lemma_skip_seps_ge(cs, cs.len() as int);
    }
    let ts = tokens_from(cs, 0);
    assert(ts =~= token_seq(d));
    assert(ts.subrange(0, token_seq(d).len() as int) =~= token_seq(d));
    lemma_parse_readable(d, ts, 0);
}

/// Readable values, which hold no function, are equal to themselves.
pub proof fn law_readable_equals_itself(d: Datum)
    requires
        readable(d),
    ensures
        equal(d, d),
    decreases d, 0nat,
{
    if let Datum::List(items) = d {
        lemma_items_equal_themselves(items, items.len());
    }
}

proof fn lemma_items_equal_themselves(items: Seq<Datum>, n: nat)
    requires
        readable_items(items, n),
    ensures
        equal_upto(items, items, n),
    decreases items, n,
{
    if n > 0 {
        lemma_items_equal_themselves(items, (n - 1) as nat);
        law_readable_equals_itself(items[n - 1]);
    }
}

/// Relies on `str::chars`: the characters of the text, in order.
#[verifier::external_body]
fn chars_of(s: &str) -> (r: Vec<char>)
    ensures
        r@ == s@,
{
    s.chars().collect()
}

fn is_space_char(c: char) -> (r: bool)
    ensures
        r == is_space(c),
{
    let u = c as u32;
    (0x09 <= u && u <= 0x0d) || u == 0x20 || u == 0x85 || u == 0xa0 || u == 0x1680 || (0x2000
        <= u && u <= 0x200a) || u == 0x2028 || u == 0x2029 || u == 0x202f || u == 0x205f || u
        == 0x3000
}

fn is_special_char(c: char) -> (r: bool)
    ensures
        r == is_special(c),
{
    c == '[' || c == ']' || c == '{' || c == '}' || c == '(' || c == ')' || c == '\'' || c == '`'
        || c == '~' || c == '^' || c == '@'
}

fn stops_bare_char(c: char) -> (r: bool)
    ensures
        r == stops_bare(c),
{
    is_space_char(c) || c == '[' || c == ']' || c == '{' || c == '}' || c == '(' || c == ')' || c
        == '\'' || c == '"' || c == '`' || c == ',' || c == ';'
}

fn skip_seps_at(cs: &Vec<char>, i: usize) -> (r: usize)
    requires
        i <= cs@.len(),
    ensures
        r == skip_seps(cs@, i as int),
        i <= r <= cs@.len(),
{
    let mut j = i;
    while j < cs.len() && (is_space_char(cs[j]) || cs[j] == ',')
        invariant
            i <= j <= cs@.len(),
            skip_seps(cs@, i as int) == skip_seps(cs@, j as int),
        decreases cs@.len() - j,
    {
        j = j + 1;
    }
    j
}

fn string_end_at(cs: &Vec<char>, i: usize) -> (r: usize)
    requires
        i <= cs@.len(),
    ensures
        r == string_end(cs@, i as int),
        i <= r <= cs@.len(),
{
    let mut j = i;
    loop
        invariant
            i <= j <= cs@.len(),
            string_end(cs@, i as int) == string_end(cs@, j as int),
        decreases cs@.len() - j,
    {
        if j >= cs.len() {
            return j;
        }
        if cs[j] == '\\' {
            if j + 1 < cs.len() && cs[j + 1] != '\n' {
                j = j + 2;
            } else {
                return j;
            }
        } else if cs[j] == '"' {
            return j + 1;
        } else {
            j = j + 1;
        }
    }
}

fn bare_end_at(cs: &Vec<char>, i: usize) -> (r: usize)
    requires
        i <= cs@.len(),
    ensures
        r == bare_end(cs@, i as int),
        i <= r <= cs@.len(),
{
    let mut j = i;
    while j < cs.len() && !stops_bare_char(cs[j])
        invariant
            i <= j <= cs@.len(),
            bare_end(cs@, i as int) == bare_end(cs@, j as int),
        decreases cs@.len() - j,
    {
        j = j + 1;
    }
    j
}

fn line_end_at(cs: &Vec<char>, i: usize) -> (r: usize)
    requires
        i <= cs@.len(),
    ensures
        r == line_end(cs@, i as int),
        i <= r <= cs@.len(),
{
    let mut j = i;
    while j < cs.len() && cs[j] != '\n'
        invariant
            i <= j <= cs@.len(),
            line_end(cs@, i as int) == line_end(cs@, j as int),
        decreases cs@.len() - j,
    {
        j = j + 1;
    }
    j
}

fn token_end_at(cs: &Vec<char>, i: usize) -> (r: usize)
    requires
        i < cs@.len(),
    ensures
        r == token_end(cs@, i as int),
        i < r <= cs@.len(),
{
    let c = cs[i];
    let n = cs.len();
    if c == '~' && i + 1 < n && cs[i + 1] == '@' {
        i + 2
    } else if is_special_char(c) {
        i + 1
    } else if c == '"' {
        string_end_at(cs, i + 1)
    } else if c == ';' {
        line_end_at(cs, i + 1)
    } else {
        bare_end_at(cs, i + 1)
    }
}

fn text_of(cs: &Vec<char>, from: usize, to: usize) -> (r: String)
    requires
        from <= to <= cs@.len(),
    ensures
        r@ == cs@.subrange(from as int, to as int),
{
    let mut out = String::new();
    let mut k = from;
    while k < to
        invariant
            from <= k <= to,
            to <= cs@.len(),
            out@ == cs@.subrange(from as int, k as int),
        decreases to - k,
    {
        push_char(&mut out, cs[k]);
        k = k + 1;
        assert(out@ =~= cs@.subrange(from as int, k as int));
    }
    out
}

/// Splits a text into tokens: brackets and the other punctuation characters
/// each on their own, `~@`, double-quoted strings (escapes kept as written),
/// and runs of other characters. White space and commas separate tokens;
/// comments, from `;` to the end of the line, are dropped.
pub fn tokenize(input: &str) -> (r: Vec<String>)
    ensures
        texts_view(r@) == tokens_from(input@, 0),
{
    let cs = chars_of(input);
    let mut out: Vec<String> = Vec::new();
    let mut i: usize = 0;
    while i < cs.len()
        invariant
            cs@ == input@,
            i <= cs@.len(),
            texts_view(out@) + tokens_from(cs@, i as int) == tokens_from(cs@, 0),
        decreases cs@.len() - i,
    {
        let j = skip_seps_at(&cs, i);
        if j >= cs.len() {
            assert(tokens_from(cs@, i as int) =~= Seq::empty());
            i = j;
        } else {
            let e = token_end_at(&cs, j);
            if cs[j] != ';' {
                let t = text_of(&cs, j, e);
                proof {
                    assert(texts_view(out@.push(t)) =~= texts_view(out@).push(t@));
                    assert(texts_view(out@).push(t@) + tokens_from(cs@, e as int) =~= texts_view(
                        out@,
                    ) + tokens_from(cs@, i as int));
                }
                out.push(t);
            }
            i = e;
        }
    }
    assert(tokens_from(cs@, i as int) =~= Seq::empty());
    assert(texts_view(out@) =~= texts_view(out@) + tokens_from(cs@, i as int));
    out
}

/// A cursor over a sequence of tokens.
pub struct Reader {
    tokens: Vec<String>,
    position: usize,
}

impl Reader {
    pub closed spec fn tokens(&self) -> Seq<Seq<char>> {
        texts_view(self.tokens@)
    }

    pub closed spec fn pos(&self) -> int {
        self.position as int
    }

    pub fn new(input: Vec<String>) -> (r: Reader)
        ensures
            r.tokens() == texts_view(input@),
            r.pos() == 0,
    {
        Reader { tokens: input, position: 0 }
    }

    /// The current token; the cursor moves past it.
    pub fn next(&mut self) -> (r: String)
        requires
            0 <= old(self).pos() < old(self).tokens().len(),
        ensures
            r@ == old(self).tokens()[old(self).pos()],
            final(self).tokens() == old(self).tokens(),
            final(self).pos() == old(self).pos() + 1,
    {
        let t = self.tokens[self.position].clone();
        let _ = self.tokens.len();
        self.position = self.position + 1;
        t
    }

    /// The current token.
    pub fn peek(&self) -> (r: &str)
        requires
            0 <= self.pos() < self.tokens().len(),
        ensures
            r@ == self.tokens()[self.pos()],
    {
        self.tokens[self.position].as_str()
    }

    /// Whether every token has been read.
    pub fn end(&self) -> (r: bool)
        ensures
            r == (self.pos() >= self.tokens().len()),
            self.pos() >= 0,
    {
        self.position >= self.tokens.len()
    }
}

fn first_char_is(t: &str, c: char) -> (r: bool)
    ensures
        r == (t@.len() > 0 && t@[0] == c),
{
    t.unicode_len() > 0 && t.get_char(0) == c
}

/// Reads the integer literal `t`, if it is one.
pub fn parse_int(t: &str) -> (r: Option<i64>)
    ensures
        match r {
            Some(n) => int_literal(t@) == Some(n as int),
            None => int_literal(t@) is None,
        },
{
    let n = t.unicode_len();
    let neg = n > 0 && t.get_char(0) == '-';
    let signed = n > 0 && (t.get_char(0) == '-' || t.get_char(0) == '+');
    let start: usize = if signed {
        1
    } else {
        0
    };
    let ghost d = t@.subrange(start as int, n as int);
    if start >= n {
        assert(d.len() == 0);
        return None;
    }
    // Saturating at `cap`, which exceeds every magnitude that fits.
    let cap: u128 = 0x8000_0000_0000_0001;
    let mut acc: u128 = 0;
    let mut k = start;
    while k < n
        invariant
            n == t@.len(),
            start <= k <= n,
            d == t@.subrange(start as int, n as int),
            start as int == (if t@.len() > 0 && (t@[0] == '-' || t@[0] == '+') {
                1int
            } else {
                0int
            }),
            neg == (t@.len() > 0 && t@[0] == '-'),
            all_digits(d.subrange(0, k - start)),
            acc as int == if digits_value(d.subrange(0, k - start)) < cap as int {
                digits_value(d.subrange(0, k - start))
            } else {
                cap as int
            },
            cap == 0x8000_0000_0000_0001u128,
        decreases n - k,
    {
        let c = t.get_char(k);
        if !('0' <= c && c <= '9') {
            assert(d[k - start] == c);
            assert(!all_digits(d));
            return None;
        }
        let dv = (c as u32 - '0' as u32) as u128;
        let ghost before = d.subrange(0, k - start);
        let ghost after = d.subrange(0, k + 1 - start);
        assert(after.drop_last() =~= before);
        assert(digits_value(after) == digits_value(before) * 10 + dv);
        proof {
            lemma_digits_nonneg(before);
        }
        if acc >= cap {
            assert(digits_value(after) >= cap) by (nonlinear_arith)
                requires
                    digits_value(after) == digits_value(before) * 10 + dv,
                    digits_value(before) >= cap,
                    dv >= 0,
                    cap > 0,
            ;
        } else {
            let next = acc * 10 + dv;
            acc = if next >= cap {
                cap
            } else {
                next
            };
        }
        k = k + 1;
        assert(all_digits(d.subrange(0, k - start)));
    }
    assert(d.subrange(0, n - start) =~= d);
    if neg {
        if acc > 0x8000_0000_0000_0000 {
            None
        } else if acc == 0x8000_0000_0000_0000 {
            Some(i64::MIN)
        } else {
            Some(-(acc as i64))
        }
    } else {
        if acc > 0x7fff_ffff_ffff_ffff {
            None
        } else {
            Some(acc as i64)
        }
    }
}

pub proof fn lemma_digits_nonneg(d: Seq<char>)
    requires
        all_digits(d),
    ensures
        digits_value(d) >= 0,
    decreases d.len(),
{
    if d.len() > 0 {
        assert(all_digits(d.drop_last()));
        lemma_digits_nonneg(d.drop_last());
        assert(is_digit(d[d.len() - 1]));
    }
}

/// The value that the token `t` stands for.
pub fn read_atom_text(t: &str) -> (r: MalType)
    ensures
        r.view() == atom(t@),
{
    proof {
        reveal_strlit("true");
        reveal_strlit("false");
        reveal_strlit("nil");
    }
    assert("true"@ =~= true_text());
    assert("false"@ =~= false_text());
    assert("nil"@ =~= nil_text());
    if same_text(t, "true") {
        return MalType::Bool(true);
    }
    if same_text(t, "false") {
        return MalType::Bool(false);
    }
    if same_text(t, "nil") {
        return MalType::Nil;
    }
    let n = t.unicode_len();
    if n >= 2 && t.get_char(0) == '"' && t.get_char(n - 1) == '"' {
        let body = t.substring_char(1, n - 1);
        return MalType::Str(body.to_owned());
    }
    match parse_int(t) {
        Some(v) => MalType::Number(v),
        None => MalType::Symbol(t.to_owned()),
    }
}

/// Reads the atom at the cursor.
pub fn read_atom(reader: &mut Reader) -> (r: MalType)
    requires
        0 <= old(reader).pos() < old(reader).tokens().len(),
    ensures
        r.view() == atom(old(reader).tokens()[old(reader).pos()]),
        final(reader).tokens() == old(reader).tokens(),
        final(reader).pos() == old(reader).pos() + 1,
{
    let t = reader.next();
    read_atom_text(t.as_str())
}

/// Reads one form at the cursor: `nil` when no token is left. `None` when a
/// list is not closed before the tokens run out.
pub fn read_form(reader: &mut Reader) -> (r: Option<MalType>)
    ensures
        final(reader).tokens() == old(reader).tokens(),
        match r {
            Some(v) => parse_form(old(reader).tokens(), old(reader).pos()) == Some(
                (v.view(), final(reader).pos()),
            ),
            None => parse_form(old(reader).tokens(), old(reader).pos()) is None,
        },
    decreases old(reader).tokens().len() - old(reader).pos(), 0nat,
{
    if reader.end() {
        Some(MalType::Nil)
    } else if first_char_is(reader.peek(), '(') {
        reader.next();
        read_list(reader)
    } else {
        Some(read_atom(reader))
    }
}

/// Reads the elements of a list whose opening parenthesis has been read, and
/// the closing parenthesis.
pub fn read_list(reader: &mut Reader) -> (r: Option<MalType>)
    requires
        old(reader).pos() >= 0,
    ensures
        final(reader).tokens() == old(reader).tokens(),
        match r {
            Some(v) => parse_list(old(reader).tokens(), old(reader).pos(), Seq::empty()) == Some(
                (v.view(), final(reader).pos()),
            ),
            None => parse_list(old(reader).tokens(), old(reader).pos(), Seq::empty()) is None,
        },
    decreases old(reader).tokens().len() - old(reader).pos(), 1nat,
{
    let ghost ts = reader.tokens();
    let ghost first = reader.pos();
    let mut list: Vec<MalType> = Vec::new();
    assert(seq_view(list@) =~= Seq::empty());
    loop
        invariant
            ts == old(reader).tokens(),
            first == old(reader).pos(),
            reader.tokens() == ts,
            first <= reader.pos(),
            parse_list(ts, first, Seq::empty()) == parse_list(ts, reader.pos(), seq_view(list@)),
        decreases ts.len() - reader.pos(),
    {
        if reader.end() {
            return None;
        }
        if first_char_is(reader.peek(), ')') {
            reader.next();
            return Some(MalType::List(list));
        }
        let p = reader.position;
        match read_form(reader) {
            Some(v) => {
                if reader.position <= p || reader.position > reader.tokens.len() {
                    return None;
                }
                proof {
                    assert(seq_view(list@.push(v)) =~= seq_view(list@).push(v.view()));
                }
                list.push(v);
            },
            None => {
                return None;
            },
        }
    }
}

/// Reads the first form of a text: `None` when a list in it is not closed.
pub fn read_str(input: &str) -> (r: Option<MalType>)
    ensures
        match r {
            Some(v) => read_text(input@) == Some(v.view()),
            None => read_text(input@) is None,
        },
{
    let tokens = tokenize(input);
    let mut reader = Reader::new(tokens);
    read_form(&mut reader)
}

} // verus!
