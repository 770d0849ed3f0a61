use vstd::prelude::*;

verus! {

/// The native operations that a program reaches through the global bindings.
#[derive(Clone, Copy, PartialEq, Eq, Structural, Debug)]
pub enum Native {
    Add,
    Mul,
    Prn,
    List,
    IsList,
    IsEmpty,
    Count,
    Equals,
    Less,
    LessEq,
    Greater,
    GreaterEq,
    ReadString,
    ReadFile,
    Str,
}

/// The mathematical model of a value.
pub enum Datum {
    Num(int),
    Sym(Seq<char>),
    Str(Seq<char>),
    List(Seq<Datum>),
    Nil,
    Bool(bool),
    Builtin(Native),
    Closure { scope: nat, params: Seq<Seq<char>>, body: Box<Datum> },
}

/// A value of the language. Numbers are 64-bit signed integers.
#[derive(Debug)]
pub enum MalType {
    Number(i64),
    Symbol(String),
    Str(String),
    List(Vec<MalType>),
    Nil,
    Bool(bool),
    BuiltinFn(Native),
    /// A closure: the scope it was created in, its parameter names and its body.
    UserFn { scope: usize, params: Vec<String>, body: Box<MalType> },
}

pub open spec fn texts_view(p: Seq<String>) -> Seq<Seq<char>> {
    Seq::new(p.len(), |i: int| p[i]@)
}

pub open spec fn seq_view(s: Seq<MalType>) -> Seq<Datum>
    decreases s,
{
    Seq::new(s.len(), |i: int| if 0 <= i < s.len() { s[i].view() } else { Datum::Nil })
}

impl MalType {
    pub open spec fn view(self) -> Datum
        decreases self,
    {
        match self {
            MalType::Number(n) => Datum::Num(n as int),
            MalType::Symbol(s) => Datum::Sym(s@),
            MalType::Str(s) => Datum::Str(s@),
            MalType::List(l) => Datum::List(seq_view(l@)),
            MalType::Nil => Datum::Nil,
            MalType::Bool(b) => Datum::Bool(b),
            MalType::BuiltinFn(f) => Datum::Builtin(f),
            MalType::UserFn { scope, params, body } => Datum::Closure {
                scope: scope as nat,
                params: texts_view(params@),
                body: Box::new((*body).view()),
            },
        }
    }
}

pub proof fn lemma_list_view(l: Vec<MalType>)
    ensures
        MalType::List(l).view() == Datum::List(seq_view(l@)),
{
}

/// An element of a list is smaller than the list.
pub proof fn lemma_item_smaller(v: MalType, l: Vec<MalType>, i: int)
    requires
        v == MalType::List(l),
        0 <= i < l@.len(),
    ensures
        decreases_to!(v => l@[i]),
{
    vstd::std_specs::vec::axiom_vec_index_decreases(l, i);
    assert(decreases_to!(v => v->List_0));
}

/// Only `nil` and `false` are false in a condition.
pub open spec fn truthy(d: Datum) -> bool {
    match d {
        Datum::Nil => false,
        Datum::Bool(b) => b,
        _ => true,
    }
}

/// Structural equality; a function equals nothing, not even itself.
pub open spec fn equal(a: Datum, b: Datum) -> bool
    decreases a, 0nat,
{
    match a {
        Datum::Num(x) => match b {
            Datum::Num(y) => x == y,
            _ => false,
        },
        Datum::Sym(x) => match b {
            Datum::Sym(y) => x == y,
            _ => false,
        },
        Datum::Str(x) => match b {
            Datum::Str(y) => x == y,
            _ => false,
        },
        Datum::List(x) => match b {
            Datum::List(y) => x.len() == y.len() && equal_upto(x, y, x.len()),
            _ => false,
        },
        Datum::Nil => b is Nil,
        Datum::Bool(x) => match b {
            Datum::Bool(y) => x == y,
            _ => false,
        },
        _ => false,
    }
}

/// The first `n` elements of two sequences are pairwise equal.
pub open spec fn equal_upto(x: Seq<Datum>, y: Seq<Datum>, n: nat) -> bool
    decreases x, n,
{
    if n == 0 {
        true
    } else if n > x.len() || n > y.len() {
        false
    } else {
        equal_upto(x, y, (n - 1) as nat) && equal(x[n - 1], y[n - 1])
    }
}

/// Equality of the first `n` elements implies equality of the first `m <= n`.
pub proof fn lemma_equal_upto_prefix(x: Seq<Datum>, y: Seq<Datum>, n: nat, m: nat)
    requires
        m <= n,
        equal_upto(x, y, n),
    ensures
        equal_upto(x, y, m),
    decreases n,
{
    if m < n {
        lemma_equal_upto_prefix(x, y, (n - 1) as nat, m);
    }
}

pub open spec fn is_function(d: Datum) -> bool {
    d is Builtin || d is Closure
}

/// A function value is equal to nothing, not even to itself.
pub proof fn law_function_equals_nothing(a: Datum, b: Datum)
    requires
        is_function(a) || is_function(b),
    ensures
        !equal(a, b),
        !equal(b, a),
{
}

/// Only `nil` and `false` count as false in a condition; zero, the empty list
/// and every other value count as true.
pub proof fn law_only_nil_and_false_are_false(d: Datum)
    ensures
        !truthy(d) <==> (d == Datum::Nil || d == Datum::Bool(false)),
{
}

pub open spec fn digit_char(d: nat) -> char {
    seq!['0', '1', '2', '3', '4', '5', '6', '7', '8', '9'][d as int]
}

/// Decimal digits of a natural number, most significant first.
pub open spec fn digits_of(m: nat) -> Seq<char>
    decreases m,
{
    if m < 10 {
        seq![digit_char(m)]
    } else {
        digits_of(m / 10) + seq![digit_char(m % 10)]
    }
}

pub open spec fn num_text(n: int) -> Seq<char> {
    if n < 0 {
        seq!['-'] + digits_of((-n) as nat)
    } else {
        digits_of(n as nat)
    }
}

pub open spec fn nil_text() -> Seq<char> {
    seq!['n', 'i', 'l']
}

pub open spec fn true_text() -> Seq<char> {
    seq!['t', 'r', 'u', 'e']
}

pub open spec fn false_text() -> Seq<char> {
    seq!['f', 'a', 'l', 's', 'e']
}

pub open spec fn builtin_text() -> Seq<char> {
    seq!['#', '<', 'b', 'u', 'i', 'l', 't', 'i', 'n', '_', 'f', 'u', 'n', 'c', 't', 'i', 'o', 'n', '>']
}

pub open spec fn closure_text() -> Seq<char> {
    seq!['#', '<', 'f', 'n', '>']
}

/// The printed form of a value; `readably` puts strings between double quotes.
pub open spec fn show(d: Datum, readably: bool) -> Seq<char>
    decreases d, 0nat,
{
    match d {
        Datum::Num(n) => num_text(n),
        Datum::Sym(s) => s,
        Datum::Str(s) => if readably {
            seq!['"'] + s + seq!['"']
        } else {
            s
        },
        Datum::List(items) => seq!['('] + show_items(items, items.len(), readably) + seq![')'],
        Datum::Nil => nil_text(),
        Datum::Bool(b) => if b {
            true_text()
        } else {
            false_text()
        },
        Datum::Builtin(_) => builtin_text(),
        Datum::Closure { .. } => closure_text(),
    }
}

/// The first `n` items printed and separated by single spaces.
pub open spec fn show_items(items: Seq<Datum>, n: nat, readably: bool) -> Seq<char>
    decreases items, n,
{
    if n == 0 || n > items.len() {
        Seq::empty()
    } else if n == 1 {
        show(items[0], readably)
    } else {
        show_items(items, (n - 1) as nat, readably) + seq![' '] + show(items[n - 1], readably)
    }
}

/// Relies on `String::push`: appends one character.
#[verifier::external_body]
pub(crate) fn push_char(s: &mut String, c: char)
    ensures
        final(s)@ == old(s)@.push(c),
{
    s.push(c)
}

fn digit_of(d: u64) -> (c: char)
    requires
        d < 10,
    ensures
        c == digit_char(d as nat),
{
    if d == 0 {
        '0'
    } else if d == 1 {
        '1'
    } else if d == 2 {
        '2'
    } else if d == 3 {
        '3'
    } else if d == 4 {
        '4'
    } else if d == 5 {
        '5'
    } else if d == 6 {
        '6'
    } else if d == 7 {
        '7'
    } else if d == 8 {
        '8'
    } else {
        '9'
    }
}

fn push_digits(out: &mut String, m: u64)
    ensures
        final(out)@ == old(out)@ + digits_of(m as nat),
    decreases m,
{
    if m < 10 {
        push_char(out, digit_of(m));
    } else {
        push_digits(out, m / 10);
        push_char(out, digit_of(m % 10));
        assert(final(out)@ =~= old(out)@ + digits_of(m as nat));
    }
}

fn push_text(out: &mut String, s: &str)
    ensures
        final(out)@ == old(out)@ + s@,
{
    out.append(s);
}

impl MalType {
    /// Whether the value counts as true in a condition.
    pub fn to_bool(&self) -> (r: bool)
        ensures
            r == truthy(self.view()),
    {
        match self {
            MalType::Nil => false,
            MalType::Bool(b) => *b,
            _ => true,
        }
    }

    /// A copy of the value.
    pub fn duplicate(&self) -> (r: MalType)
        ensures
            r.view() == self.view(),
        decreases self,
    {
        match self {
            MalType::Number(n) => MalType::Number(*n),
            MalType::Symbol(s) => MalType::Symbol(s.clone()),
            MalType::Str(s) => MalType::Str(s.clone()),
            MalType::List(l) => {
                let mut out: Vec<MalType> = Vec::new();
                let mut i: usize = 0;
                while i < l.len()
                    invariant
                        *self == MalType::List(*l),
                        i <= l@.len(),
                        out@.len() == i,
                        forall|j: int| 0 <= j < i ==> out@[j].view() == l@[j].view(),
                    decreases l@.len() - i,
                {
                    proof {
                        lemma_item_smaller(*self, *l, i as int);
                    }
                    out.push(l[i].duplicate());
                    i = i + 1;
                }
                proof {
                    lemma_list_view(out);
                    lemma_list_view(*l);
                    assert(seq_view(out@) =~= seq_view(l@));
                }
                MalType::List(out)
            },
            MalType::Nil => MalType::Nil,
            MalType::Bool(b) => MalType::Bool(*b),
            MalType::BuiltinFn(f) => MalType::BuiltinFn(*f),
            MalType::UserFn { scope, params, body } => {
                let ps = copy_texts(params);
                let b = (**body).duplicate();
                assert(texts_view(ps@) =~= texts_view(params@));
                MalType::UserFn { scope: *scope, params: ps, body: Box::new(b) }
            },
        }
    }

    /// Structural equality: functions are never equal to anything.
    pub fn equals(&self, other: &MalType) -> (r: bool)
        ensures
            r == equal(self.view(), other.view()),
        decreases self,
    {
        match (self, other) {
            (MalType::Number(x), MalType::Number(y)) => *x == *y,
            (MalType::Symbol(x), MalType::Symbol(y)) => *x == *y,
            (MalType::Str(x), MalType::Str(y)) => *x == *y,
            (MalType::Nil, MalType::Nil) => true,
            (MalType::Bool(x), MalType::Bool(y)) => *x == *y,
            (MalType::List(x), MalType::List(y)) => {
                proof {
                    lemma_list_view(*x);
                    lemma_list_view(*y);
                }
                if x.len() != y.len() {
                    return false;
                }
                let mut i: usize = 0;
                while i < x.len()
                    invariant
                        *self == MalType::List(*x),
                        *other == MalType::List(*y),
                        i <= x@.len(),
                        x@.len() == y@.len(),
                        equal_upto(seq_view(x@), seq_view(y@), i as nat),
                    decreases x@.len() - i,
                {
                    proof {
                        lemma_item_smaller(*self, *x, i as int);
                    }
                    if !x[i].equals(&y[i]) {
                        proof {
                            if equal_upto(seq_view(x@), seq_view(y@), x@.len()) {
                                lemma_equal_upto_prefix(seq_view(x@), seq_view(y@), x@.len(), (i + 1) as nat);
                            }
                        }
                        return false;
                    }
                    i = i + 1;
                }
                true
            },
            _ => false,
        }
    }

    /// Appends the printed form of the value to `out`.
    pub fn write_to(&self, out: &mut String, readably: bool)
        ensures
            final(out)@ == old(out)@ + show(self.view(), readably),
        decreases self,
    {
        match self {
            MalType::Number(n) => {
                let w: i128 = *n as i128;
                if w < 0 {
                    push_char(out, '-');
                    push_digits(out, (-w) as u64);
                } else {
                    push_digits(out, w as u64);
                }
                assert(final(out)@ =~= old(out)@ + show(self.view(), readably));
            },
            MalType::Symbol(s) => push_text(out, s.as_str()),
            MalType::Str(s) => {
                if readably {
                    push_char(out, '"');
                    push_text(out, s.as_str());
                    push_char(out, '"');
                } else {
                    push_text(out, s.as_str());
                }
                assert(final(out)@ =~= old(out)@ + show(self.view(), readably));
            },
            MalType::List(l) => {
                proof {
                    lemma_list_view(*l);
                }
                let ghost start = out@;
                push_char(out, '(');
                let mut i: usize = 0;
                while i < l.len()
                    invariant
                        *self == MalType::List(*l),
                        i <= l@.len(),
                        out@ == start + seq!['('] + show_items(seq_view(l@), i as nat, readably),
                    decreases l@.len() - i,
                {
                    if i > 0 {
                        push_char(out, ' ');
                    }
                    proof {
                        lemma_item_smaller(*self, *l, i as int);
                    }
                    l[i].write_to(out, readably);
                    i = i + 1;
                    assert(out@ =~= start + seq!['('] + show_items(seq_view(l@), i as nat, readably));
                }
                push_char(out, ')');
                assert(out@ =~= start + show(self.view(), readably));
            },
            MalType::Nil => {
                proof {
                    reveal_strlit("nil");
                }
                push_text(out, "nil");
                assert(final(out)@ =~= old(out)@ + show(self.view(), readably));
            },
            MalType::Bool(b) => {
                proof {
                    reveal_strlit("true");
                    reveal_strlit("false");
                }
                if *b {
                    push_text(out, "true");
                } else {
                    push_text(out, "false");
                }
                assert(final(out)@ =~= old(out)@ + show(self.view(), readably));
            },
            MalType::BuiltinFn(_) => {
                proof {
                    reveal_strlit("#<builtin_function>");
                }
                push_text(out, "#<builtin_function>");
                assert(final(out)@ =~= old(out)@ + show(self.view(), readably));
            },
            MalType::UserFn { .. } => {
                proof {
                    reveal_strlit("#<fn>");
                }
                push_text(out, "#<fn>");
                assert(final(out)@ =~= old(out)@ + show(self.view(), readably));
            },
        }
    }

    /// The printed form of the value, strings between double quotes.
    pub fn to_text(&self) -> (r: String)
        ensures
            r@ == show(self.view(), true),
    {
        let mut out = String::new();
        self.write_to(&mut out, true);
        assert(out@ =~= show(self.view(), true));
        out
    }
}

/// Whether two texts hold the same characters.
pub fn same_text(a: &str, b: &str) -> (r: bool)
    ensures
        r == (a@ == b@),
{
    let n = a.unicode_len();
    if n != b.unicode_len() {
        return false;
    }
    let mut i: usize = 0;
    while i < n
        invariant
            n == a@.len(),
            n == b@.len(),
            i <= n,
            a@.subrange(0, i as int) == b@.subrange(0, i as int),
        decreases n - i,
    {
        if a.get_char(i) != b.get_char(i) {
            return false;
        }
        assert(a@.subrange(0, i + 1) =~= a@.subrange(0, i as int).push(a@[i as int]));
        assert(b@.subrange(0, i + 1) =~= b@.subrange(0, i as int).push(b@[i as int]));
        i = i + 1;
    }
    assert(a@ =~= a@.subrange(0, n as int));
    assert(b@ =~= b@.subrange(0, n as int));
    true
}

/// Copies of the given texts.
pub fn copy_texts(p: &Vec<String>) -> (r: Vec<String>)
    ensures
        r@.len() == p@.len(),
        forall|i: int| 0 <= i < p@.len() ==> r@[i]@ == p@[i]@,
{
    let mut out: Vec<String> = Vec::new();
    let mut i: usize = 0;
    while i < p.len()
        invariant
            i <= p@.len(),
            out@.len() == i,
            forall|j: int| 0 <= j < i ==> out@[j]@ == p@[j]@,
        decreases p@.len() - i,
    {
        out.push(p[i].clone());
        i = i + 1;
    }
    out
}

} // verus!
