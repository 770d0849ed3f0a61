use vstd::prelude::*;

use crate::env::{binds_view, lookup, put, root_of, Env, FrameView};
use crate::reader::{read_str, read_text};
use crate::types::{
    copy_texts, equal, is_function, same_text, seq_view, show, show_items, texts_view, truthy,
    Datum, MalType, Native,
};

verus! {

/// How an evaluation can fail.
#[derive(Debug)]
pub enum EvalError {
    /// The head of a call is not a function.
    NotAFunction,
    /// A special form has the wrong shape.
    Malformed,
    /// A native function got arguments it cannot take.
    BadArgs,
    /// A result leaves the range of 64-bit integers.
    Overflow,
    /// `read-string` got a text with a list that is not closed.
    Unreadable,
    /// The contents of the named file are needed; see `Interp::provide_file`.
    NeedsFile(String),
    /// Calls are nested deeper than the depth allowed.
    OutOfFuel,
}

/// The model of an `EvalError`.
pub enum Fault {
    NotAFunction,
    Malformed,
    BadArgs,
    Overflow,
    Unreadable,
    NeedsFile(Seq<char>),
    OutOfFuel,
}

impl EvalError {
    pub open spec fn view(self) -> Fault {
        match self {
            EvalError::NotAFunction => Fault::NotAFunction,
            EvalError::Malformed => Fault::Malformed,
            EvalError::BadArgs => Fault::BadArgs,
            EvalError::Overflow => Fault::Overflow,
            EvalError::Unreadable => Fault::Unreadable,
            EvalError::NeedsFile(s) => Fault::NeedsFile(s@),
            EvalError::OutOfFuel => Fault::OutOfFuel,
        }
    }
}

pub open spec fn result_view(r: Result<MalType, EvalError>) -> Result<Datum, Fault> {
    match r {
        Ok(v) => Ok(v.view()),
        Err(e) => Err(e.view()),
    }
}

/// The special forms.
#[derive(Clone, Copy, PartialEq, Eq, Structural, Debug)]
pub enum Form {
    Def,
    Let,
    Do,
    If,
    Fn,
    Eval,
}

pub open spec fn kw_def() -> Seq<char> {
    seq!['d', 'e', 'f', '!']
}

pub open spec fn kw_let() -> Seq<char> {
    seq!['l', 'e', 't', '*']
}

pub open spec fn kw_do() -> Seq<char> {
    seq!['d', 'o']
}

pub open spec fn kw_if() -> Seq<char> {
    seq!['i', 'f']
}

pub open spec fn kw_fn() -> Seq<char> {
    seq!['f', 'n', '*']
}

pub open spec fn kw_eval() -> Seq<char> {
    seq!['e', 'v', 'a', 'l']
}

/// The special form that a list with head `d` is, if any.
pub open spec fn form_of(d: Datum) -> Option<Form> {
    if d == Datum::Sym(kw_def()) {
        Some(Form::Def)
    } else if d == Datum::Sym(kw_let()) {
        Some(Form::Let)
    } else if d == Datum::Sym(kw_do()) {
        Some(Form::Do)
    } else if d == Datum::Sym(kw_if()) {
        Some(Form::If)
    } else if d == Datum::Sym(kw_fn()) {
        Some(Form::Fn)
    } else if d == Datum::Sym(kw_eval()) {
        Some(Form::Eval)
    } else {
        None
    }
}

/// The state that evaluation changes: the scopes and the lines printed.
pub struct World {
    pub frames: Seq<FrameView>,
    pub out: Seq<Seq<char>>,
}

pub type Files = Seq<(Seq<char>, Seq<char>)>;

pub open spec fn bind_in(w: World, s: int, k: Seq<char>, v: Datum) -> World {
    World {
        frames: w.frames.update(
            s,
            FrameView { outer: w.frames[s].outer, binds: put(w.frames[s].binds, k, v) },
        ),
        out: w.out,
    }
}

pub open spec fn push_frame(w: World, outer: nat, binds: Seq<(Seq<char>, Datum)>) -> World {
    World { frames: w.frames.push(FrameView { outer: Some(outer), binds }), out: w.out }
}

pub open spec fn all_syms(ps: Seq<Datum>) -> bool {
    forall|i: int| 0 <= i < ps.len() ==> (#[trigger] ps[i]) is Sym
}

pub open spec fn sym_names(ps: Seq<Datum>) -> Seq<Seq<char>> {
    Seq::new(ps.len(), |i: int| ps[i]->Sym_0)
}

/// Bindings of `let*`: names and expressions in turn, each name a symbol.
pub open spec fn let_shape(bs: Seq<Datum>) -> bool {
    bs.len() % 2 == 0 && forall|i: int| 0 <= i < bs.len() && i % 2 == 0 ==> (#[trigger] bs[i]) is Sym
}

/// Parameters bound to arguments position by position, as far as both reach.
pub open spec fn zip_binds(ps: Seq<Seq<char>>, args: Seq<Datum>) -> Seq<(Seq<char>, Datum)> {
    let n = if ps.len() < args.len() {
        ps.len()
    } else {
        args.len()
    };
    Seq::new(n, |i: int| (ps[i], args[i]))
}

/// The contents given for a file name; the latest wins.
pub open spec fn file_of(fl: Files, name: Seq<char>) -> Option<Seq<char>>
    decreases fl.len(),
{
    if fl.len() == 0 {
        None
    } else if fl.last().0 == name {
        Some(fl.last().1)
    } else {
        file_of(fl.drop_last(), name)
    }
}

pub open spec fn in_i64(x: int) -> bool {
    i64::MIN <= x <= i64::MAX
}

/// The sum of the numbers from `i` on, added to `acc` left to right; no
/// partial sum may leave the 64-bit range.
pub open spec fn sum_from(args: Seq<Datum>, i: int, acc: int) -> Result<int, Fault>
    decreases args.len() - i,
{
    if i < 0 || i >= args.len() {
        Ok(acc)
    } else {
        match args[i] {
            Datum::Num(x) => if in_i64(acc + x) {
                sum_from(args, i + 1, acc + x)
            } else {
                Err(Fault::Overflow)
            },
            _ => Err(Fault::BadArgs),
        }
    }
}

/// The product of the numbers from `i` on, with `acc` as first factor; no
/// partial product may leave the 64-bit range.
pub open spec fn product_from(args: Seq<Datum>, i: int, acc: int) -> Result<int, Fault>
    decreases args.len() - i,
{
    if i < 0 || i >= args.len() {
        Ok(acc)
    } else {
        match args[i] {
            Datum::Num(x) => if in_i64(acc * x) {
                product_from(args, i + 1, acc * x)
            } else {
                Err(Fault::Overflow)
            },
            _ => Err(Fault::BadArgs),
        }
    }
}

/// Numbers compare by value; other values compare only as equal, when they
/// are equal.
pub open spec fn compare(n: Native, a: Datum, b: Datum) -> bool {
    let both = a is Num && b is Num;
    match n {
        Native::Less => both && a->Num_0 < b->Num_0,
        Native::LessEq => if both {
            a->Num_0 <= b->Num_0
        } else {
            equal(a, b)
        },
        Native::Greater => both && a->Num_0 > b->Num_0,
        Native::GreaterEq => if both {
            a->Num_0 >= b->Num_0
        } else {
            equal(a, b)
        },
        _ => false,
    }
}

pub open spec fn num_result(r: Result<int, Fault>) -> Result<Datum, Fault> {
    match r {
        Ok(x) => Ok(Datum::Num(x)),
        Err(e) => Err(e),
    }
}

/// What a native function does.
pub open spec fn native_spec(w: World, fl: Files, n: Native, args: Seq<Datum>) -> (
    World,
    Result<Datum, Fault>,
) {
    match n {
        Native::Add => (w, num_result(sum_from(args, 0, 0))),
        Native::Mul => (w, num_result(product_from(args, 0, 1))),
        Native::Prn => if args.len() == 0 {
            (w, Err(Fault::BadArgs))
        } else {
            (World { frames: w.frames, out: w.out.push(show(args[0], true)) }, Ok(Datum::Nil))
        },
        Native::List => (w, Ok(Datum::List(args))),
        Native::IsList => if args.len() == 0 {
            (w, Err(Fault::BadArgs))
        } else {
            (w, Ok(Datum::Bool(args[0] is List)))
        },
        Native::IsEmpty => if args.len() > 0 && args[0] is List {
            (w, Ok(Datum::Bool(args[0]->List_0.len() == 0)))
        } else {
            (w, Err(Fault::BadArgs))
        },
        Native::Count => if args.len() > 0 && args[0] is List {
            if args[0]->List_0.len() <= i64::MAX {
                (w, Ok(Datum::Num(args[0]->List_0.len() as int)))
            } else {
                (w, Err(Fault::Overflow))
            }
        } else {
            (w, Err(Fault::BadArgs))
        },
        Native::Equals => if args.len() < 2 {
            (w, Err(Fault::BadArgs))
        } else {
            (w, Ok(Datum::Bool(equal(args[0], args[1]))))
        },
        Native::Less | Native::LessEq | Native::Greater | Native::GreaterEq => if args.len() < 2 {
            (w, Err(Fault::BadArgs))
        } else {
            (w, Ok(Datum::Bool(compare(n, args[0], args[1]))))
        },
        Native::ReadString => if args.len() > 0 && args[0] is Str {
            match read_text(args[0]->Str_0) {
                Some(v) => (w, Ok(v)),
                None => (w, Err(Fault::Unreadable)),
            }
        } else {
            (w, Err(Fault::BadArgs))
        },
        Native::ReadFile => if args.len() > 0 && args[0] is Str {
            match file_of(fl, args[0]->Str_0) {
                Some(c) => (w, Ok(Datum::Str(c))),
                None => (w, Err(Fault::NeedsFile(args[0]->Str_0))),
            }
        } else {
            (w, Err(Fault::BadArgs))
        },
        Native::Str => (w, Ok(Datum::Str(show_items(args, args.len(), false)))),
    }
}

/// The value of `e` in scope `s`, and the state after it. `fuel` bounds how
/// deeply forms may nest while they are evaluated.
pub open spec fn eval_spec(w: World, fl: Files, e: Datum, s: int, fuel: nat) -> (
    World,
    Result<Datum, Fault>,
)
    decreases fuel, 1nat,
{
    match e {
        Datum::Sym(k) => (
            w,
            Ok(
                match lookup(w.frames, s, k) {
                    Some(v) => v,
                    None => Datum::Nil,
                },
            ),
        ),
        Datum::List(es) => if es.len() == 0 {
            (w, Ok(e))
        } else {
            form_spec(w, fl, es, s, fuel)
        },
        _ => (w, Ok(e)),
    }
}

/// The value of the non-empty list `es`: a special form, or a call.
pub open spec fn form_spec(w: World, fl: Files, es: Seq<Datum>, s: int, fuel: nat) -> (
    World,
    Result<Datum, Fault>,
)
    decreases fuel, 0nat,
{
    if fuel == 0 || es.len() == 0 {
        (w, Err(Fault::OutOfFuel))
    } else {
        let f = (fuel - 1) as nat;
        match form_of(es[0]) {
            Some(Form::Def) => if es.len() < 3 || !(es[1] is Sym) {
                (w, Err(Fault::Malformed))
            } else {
                let (w1, r) = eval_spec(w, fl, es[2], s, f);
                match r {
                    Ok(v) => (bind_in(w1, s, es[1]->Sym_0, v), Ok(Datum::Nil)),
                    Err(x) => (w1, Err(x)),
                }
            },
            Some(Form::Let) => if es.len() < 3 || !(es[1] is List) || !let_shape(es[1]->List_0) {
                (w, Err(Fault::Malformed))
            } else {
                let c = w.frames.len() as int;
                let (w2, r) = let_binds(
                    push_frame(w, s as nat, Seq::empty()),
                    fl,
                    es[1]->List_0,
                    0,
                    c,
                    f,
                );
                match r {
                    Ok(_) => eval_spec(w2, fl, es[2], c, f),
                    Err(x) => (w2, Err(x)),
                }
            },
            Some(Form::Do) => if es.len() < 2 {
                (w, Err(Fault::Malformed))
            } else {
                eval_do(w, fl, es, 1, s, f)
            },
            Some(Form::If) => if es.len() < 4 {
                (w, Err(Fault::Malformed))
            } else {
                let (w1, r) = eval_spec(w, fl, es[1], s, f);
                match r {
                    Ok(c) => eval_spec(
                        w1,
                        fl,
                        if truthy(c) {
                            es[2]
                        } else {
                            es[3]
                        },
                        s,
                        f,
                    ),
                    Err(x) => (w1, Err(x)),
                }
            },
            Some(Form::Fn) => if es.len() < 3 || !(es[1] is List) || !all_syms(es[1]->List_0) {
                (w, Err(Fault::Malformed))
            } else {
                (
                    w,
                    Ok(
                        Datum::Closure {
                            scope: s as nat,
                            params: sym_names(es[1]->List_0),
                            body: Box::new(es[2]),
                        },
                    ),
                )
            },
            Some(Form::Eval) => if es.len() < 2 {
                (w, Err(Fault::Malformed))
            } else {
                let (w1, r) = eval_spec(w, fl, es[1], s, f);
                match r {
                    Ok(v) => eval_spec(w1, fl, v, root_of(w1.frames, s), f),
                    Err(x) => (w1, Err(x)),
                }
            },
            None => {
                let (w1, r) = eval_args(w, fl, es, 0, Seq::empty(), s, f);
                match r {
                    Ok(vs) => if vs.len() == 0 {
                        (w1, Err(Fault::NotAFunction))
                    } else {
                        apply_spec(w1, fl, vs[0], vs.drop_first(), f)
                    },
                    Err(x) => (w1, Err(x)),
                }
            },
        }
    }
}

/// The bindings of `let*` from position `i` on, made in scope `c`.
pub open spec fn let_binds(w: World, fl: Files, bs: Seq<Datum>, i: int, c: int, f: nat) -> (
    World,
    Result<Datum, Fault>,
)
    decreases f, bs.len() - i + 2,
{
    if i < 0 || i + 1 >= bs.len() {
        (w, Ok(Datum::Nil))
    } else {
        let (w1, r) = eval_spec(w, fl, bs[i + 1], c, f);
        match r {
            Ok(v) => let_binds(bind_in(w1, c, bs[i]->Sym_0, v), fl, bs, i + 2, c, f),
            Err(x) => (w1, Err(x)),
        }
    }
}

/// The forms of `do` from position `i` on, in order; the last gives the value.
pub open spec fn eval_do(w: World, fl: Files, es: Seq<Datum>, i: int, s: int, f: nat) -> (
    World,
    Result<Datum, Fault>,
)
    decreases f, es.len() - i + 2,
{
    if i < 0 || i >= es.len() {
        (w, Ok(Datum::Nil))
    } else {
        let (w1, r) = eval_spec(w, fl, es[i], s, f);
        match r {
            Ok(v) => if i + 1 >= es.len() {
                (w1, Ok(v))
            } else {
                eval_do(w1, fl, es, i + 1, s, f)
            },
            Err(x) => (w1, Err(x)),
        }
    }
}

/// The values of the elements of `es` from position `i` on, after `acc`.
pub open spec fn eval_args(
    w: World,
    fl: Files,
    es: Seq<Datum>,
    i: int,
    acc: Seq<Datum>,
    s: int,
    f: nat,
) -> (World, Result<Seq<Datum>, Fault>)
    decreases f, es.len() - i + 2,
{
    if i < 0 || i >= es.len() {
        (w, Ok(acc))
    } else {
        let (w1, r) = eval_spec(w, fl, es[i], s, f);
        match r {
            Ok(v) => eval_args(w1, fl, es, i + 1, acc.push(v), s, f),
            Err(x) => (w1, Err(x)),
        }
    }
}

/// A call of `fv` on `args`. A closure runs its body in a new scope whose
/// parent is the scope it was made in.
pub open spec fn apply_spec(w: World, fl: Files, fv: Datum, args: Seq<Datum>, f: nat) -> (
    World,
    Result<Datum, Fault>,
)
    decreases f, 2nat,
{
    match fv {
        Datum::Builtin(n) => native_spec(w, fl, n, args),
        Datum::Closure { scope, params, body } => eval_spec(
            push_frame(w, scope, zip_binds(params, args)),
            fl,
            *body,
            w.frames.len() as int,
            f,
        ),
        _ => (w, Err(Fault::NotAFunction)),
    }
}

/// Evaluating a name that nothing binds, in a fresh session, gives `nil`
/// and changes nothing.
pub proof fn law_unbound_symbol_is_nil(fl: Files, k: Seq<char>, fuel: nat)
    ensures
        lookup(fresh_world().frames, 0, k) is None,
        eval_spec(fresh_world(), fl, Datum::Sym(k), 0, fuel) == (
            fresh_world(),
            Ok::<Datum, Fault>(Datum::Nil),
        ),
{
}

/// Adding no numbers gives 0 and multiplying none gives 1.
pub proof fn law_fold_identities(w: World, fl: Files)
    ensures
        native_spec(w, fl, Native::Add, Seq::empty()) == (w, Ok::<Datum, Fault>(Datum::Num(0))),
        native_spec(w, fl, Native::Mul, Seq::empty()) == (w, Ok::<Datum, Fault>(Datum::Num(1))),
{
}

/// `=` on a function and any other value is `false`.
pub proof fn law_equals_on_function_is_false(w: World, fl: Files, a: Datum, b: Datum)
    requires
        is_function(a) || is_function(b),
    ensures
        native_spec(w, fl, Native::Equals, seq![a, b]) == (w, Ok::<Datum, Fault>(Datum::Bool(false))),
        native_spec(w, fl, Native::Equals, seq![b, a]) == (w, Ok::<Datum, Fault>(Datum::Bool(false))),
{
    crate::types::law_function_equals_nothing(a, b);
}

/// `(def! k e)` gives `nil` and binds `k` to the value of `e` in the scope
/// it is evaluated in, where evaluating `k` then finds that value.
pub proof fn law_def_then_lookup(w: World, fl: Files, s: int, k: Seq<char>, e: Datum, f: nat)
    requires
        0 <= s < w.frames.len(),
        eval_spec(w, fl, e, s, f).1 is Ok,
    ensures
        ({
            let (w1, r) = eval_spec(w, fl, e, s, f);
            let def = Datum::List(seq![Datum::Sym(kw_def()), Datum::Sym(k), e]);
            let w2 = bind_in(w1, s, k, r->Ok_0);
            &&& eval_spec(w, fl, def, s, f + 1) == (w2, Ok::<Datum, Fault>(Datum::Nil))
            &&& (s < w1.frames.len() ==> eval_spec(w2, fl, Datum::Sym(k), s, f) == (
                w2,
                Ok::<Datum, Fault>(r->Ok_0),
            ))
        }),
{
    let (w1, r) = eval_spec(w, fl, e, s, f);
    let def = Datum::List(seq![Datum::Sym(kw_def()), Datum::Sym(k), e]);
    let es = seq![Datum::Sym(kw_def()), Datum::Sym(k), e];
    assert(form_of(es[0]) == Some(Form::Def));
    assert(eval_spec(w, fl, def, s, f + 1) == form_spec(w, fl, es, s, f + 1));
    let w2 = bind_in(w1, s, k, r->Ok_0);
    if s < w1.frames.len() {
        crate::env::lemma_local_put(w1.frames[s].binds, k, r->Ok_0, k);
    }
}

/// A closure ignores the arguments beyond its parameters: a call with extra
/// arguments is the call with just as many arguments as parameters.
pub proof fn law_extra_arguments_dropped(
    w: World,
    fl: Files,
    scope: nat,
    params: Seq<Seq<char>>,
    body: Datum,
    args: Seq<Datum>,
    f: nat,
)
    requires
        args.len() >= params.len(),
    ensures
        ({
            let c = Datum::Closure { scope, params, body: Box::new(body) };
            apply_spec(w, fl, c, args, f) == apply_spec(
                w,
                fl,
                c,
                args.subrange(0, params.len() as int),
                f,
            )
        }),
{
    assert(zip_binds(params, args) =~= zip_binds(params, args.subrange(0, params.len() as int)));
}

/// An interpreter session: the scopes, the lines that `prn` printed and not
/// yet taken, and the file contents given so far.
pub struct Interp {
    env: Env,
    printed: Vec<String>,
    files: Vec<(String, String)>,
}

/// How deeply forms may nest while they are evaluated by `rep`.
pub const MAX_DEPTH: u64 = 1000;

pub open spec fn files_view(f: Seq<(String, String)>) -> Files {
    Seq::new(f.len(), |i: int| (f[i].0@, f[i].1@))
}

pub open spec fn fresh_world() -> World {
    World { frames: seq![FrameView { outer: None, binds: Seq::empty() }], out: Seq::empty() }
}

/// What `rep` does with one line of text: read it, evaluate it in the global
/// scope and print the value. When a file is needed the state stays as it was.
pub open spec fn rep_spec(w: World, fl: Files, line: Seq<char>) -> (World, Result<Seq<char>, Fault>) {
    match read_text(line) {
        None => (w, Err(Fault::Unreadable)),
        Some(e) => {
            let (w1, r) = eval_spec(w, fl, e, 0, MAX_DEPTH as nat);
            match r {
                Ok(v) => (w1, Ok(show(v, true))),
                Err(Fault::NeedsFile(n)) => (w, Err(Fault::NeedsFile(n))),
                Err(x) => (w1, Err(x)),
            }
        },
    }
}

pub open spec fn text_result_view(r: Result<String, EvalError>) -> Result<Seq<char>, Fault> {
    match r {
        Ok(s) => Ok(s@),
        Err(e) => Err(e.view()),
    }
}

impl Interp {
    pub closed spec fn world(&self) -> World {
        World { frames: self.env@, out: texts_view(self.printed@) }
    }

    pub closed spec fn files(&self) -> Files {
        files_view(self.files@)
    }

    /// A session with one empty global scope.
    pub fn new() -> (r: Interp)
        ensures
            r.world() == fresh_world(),
            r.files() == Seq::<(Seq<char>, Seq<char>)>::empty(),
    {
        let none: Vec<(String, MalType)> = Vec::new();
        assert(binds_view(none@) =~= Seq::empty());
        let r = Interp { env: Env::new(none), printed: Vec::new(), files: Vec::new() };
        assert(r.world().out =~= Seq::empty());
        assert(r.files() =~= Seq::empty());
        r
    }

    /// The number of scopes.
    pub fn scope_count(&self) -> (r: usize)
        ensures
            r == self.world().frames.len(),
    {
        self.env.len()
    }

    /// Binds `name` to `v` in the global scope.
    pub fn define(&mut self, name: &str, v: MalType)
        requires
            old(self).world().frames.len() > 0,
        ensures
            final(self).world() == bind_in(old(self).world(), 0, name@, v.view()),
            final(self).files() == old(self).files(),
    {
        self.env.set(0, name, v);
    }

    /// The value of `name` seen from the global scope.
    pub fn lookup(&self, name: &str) -> (r: Option<MalType>)
        ensures
            match r {
                Some(v) => lookup(self.world().frames, 0, name@) == Some(v.view()),
                None => lookup(self.world().frames, 0, name@) is None,
            },
    {
        self.env.find(0, name)
    }

    /// Gives the contents of a file for `read-file` and `slurp`.
    pub fn provide_file(&mut self, name: String, contents: String)
        ensures
            final(self).world() == old(self).world(),
            final(self).files() == old(self).files().push((name@, contents@)),
    {
        self.files.push((name, contents));
        assert(self.files() =~= old(self).files().push((name@, contents@)));
    }

    /// The lines that `prn` printed since the last call, in order.
    pub fn take_printed(&mut self) -> (r: Vec<String>)
        ensures
            texts_view(r@) == old(self).world().out,
            final(self).world() == (World { frames: old(self).world().frames, out: Seq::empty() }),
            final(self).files() == old(self).files(),
    {
        let r = copy_texts(&self.printed);
        self.printed = Vec::new();
        assert(texts_view(r@) =~= old(self).world().out);
        assert(texts_view(self.printed@) =~= Seq::empty());
        r
    }

    fn file(&self, name: &str) -> (r: Option<String>)
        ensures
            match r {
                Some(c) => file_of(self.files(), name@) == Some(c@),
                None => file_of(self.files(), name@) is None,
            },
    {
        let mut j: usize = self.files.len();
        assert(self.files().subrange(0, j as int) =~= self.files());
        while j > 0
            invariant
                j <= self.files@.len(),
                file_of(self.files(), name@) == file_of(self.files().subrange(0, j as int), name@),
            decreases j,
        {
            let ghost b = self.files().subrange(0, j as int);
            assert(b.drop_last() =~= self.files().subrange(0, j - 1));
            if same_text(self.files[j - 1].0.as_str(), name) {
                return Some(self.files[j - 1].1.clone());
            }
            j = j - 1;
        }
        None
    }

    /// Reads `line`, evaluates it in the global scope and prints the value.
    /// On `NeedsFile` nothing has changed: give the file and call again.
    pub fn rep(&mut self, line: &str) -> (r: Result<String, EvalError>)
        requires
            old(self).world().frames.len() > 0,
        ensures
            (final(self).world(), text_result_view(r)) == rep_spec(
                old(self).world(),
                old(self).files(),
                line@,
            ),
            final(self).files() == old(self).files(),
    {
        let e = match read_str(line) {
            Some(e) => e,
            None => {
                return Err(EvalError::Unreadable);
            },
        };
        let saved_env = self.env.duplicate();
        let saved_printed = copy_texts(&self.printed);
        let r = eval(self, &e, 0, MAX_DEPTH);
        match r {
            Ok(v) => Ok(v.to_text()),
            Err(EvalError::NeedsFile(n)) => {
                self.env = saved_env;
                self.printed = saved_printed;
                assert(texts_view(self.printed@) =~= old(self).world().out);
                Err(EvalError::NeedsFile(n))
            },
            Err(x) => Err(x),
        }
    }
}

fn form_of_exec(head: &MalType) -> (r: Option<Form>)
    ensures
        r == form_of(head.view()),
{
    proof {
        reveal_strlit("def!");
        reveal_strlit("let*");
        reveal_strlit("do");
        reveal_strlit("if");
        reveal_strlit("fn*");
        reveal_strlit("eval");
    }
    assert("def!"@ =~= kw_def());
    assert("let*"@ =~= kw_let());
    assert("do"@ =~= kw_do());
    assert("if"@ =~= kw_if());
    assert("fn*"@ =~= kw_fn());
    assert("eval"@ =~= kw_eval());
    match head {
        MalType::Symbol(name) => {
            let n = name.as_str();
            if same_text(n, "def!") {
                Some(Form::Def)
            } else if same_text(n, "let*") {
                Some(Form::Let)
            } else if same_text(n, "do") {
                Some(Form::Do)
            } else if same_text(n, "if") {
                Some(Form::If)
            } else if same_text(n, "fn*") {
                Some(Form::Fn)
            } else if same_text(n, "eval") {
                Some(Form::Eval)
            } else {
                None
            }
        },
        _ => None,
    }
}

fn let_shape_exec(bs: &Vec<MalType>) -> (r: bool)
    ensures
        r == let_shape(seq_view(bs@)),
{
    if bs.len() % 2 != 0 {
        return false;
    }
    let mut i: usize = 0;
    while i < bs.len()
        invariant
            bs@.len() % 2 == 0,
            i <= bs@.len(),
            i % 2 == 0,
            forall|k: int| 0 <= k < i && k % 2 == 0 ==> (#[trigger] seq_view(bs@)[k]) is Sym,
        decreases bs@.len() - i,
    {
        match &bs[i] {
            MalType::Symbol(_) => {},
            _ => {
                assert(!((seq_view(bs@)[i as int]) is Sym));
                return false;
            },
        }
        i = i + 2;
    }
    true
}

fn symbol_names(ps: &Vec<MalType>) -> (r: Option<Vec<String>>)
    ensures
        match r {
            Some(n) => all_syms(seq_view(ps@)) && texts_view(n@) == sym_names(seq_view(ps@)),
            None => !all_syms(seq_view(ps@)),
        },
{
    let mut out: Vec<String> = Vec::new();
    let mut i: usize = 0;
    while i < ps.len()
        invariant
            i <= ps@.len(),
            out@.len() == i,
            forall|k: int| 0 <= k < i ==> (#[trigger] seq_view(ps@)[k]) is Sym,
            forall|k: int| 0 <= k < i ==> (#[trigger] out@[k])@ == seq_view(ps@)[k]->Sym_0,
        decreases ps@.len() - i,
    {
        match &ps[i] {
            MalType::Symbol(s) => {
                out.push(s.clone());
            },
            _ => {
                assert(!((seq_view(ps@)[i as int]) is Sym));
                return None;
            },
        }
        i = i + 1;
    }
    assert(texts_view(out@) =~= sym_names(seq_view(ps@)));
    Some(out)
}

fn zip_params(ps: &Vec<String>, args: Vec<MalType>) -> (r: Vec<(String, MalType)>)
    ensures
        binds_view(r@) == zip_binds(texts_view(ps@), seq_view(args@)),
{
    let ghost av = seq_view(args@);
    let n = if ps.len() < args.len() {
        ps.len()
    } else {
        args.len()
    };
    let mut rest = args;
    let mut out: Vec<(String, MalType)> = Vec::new();
    let mut i: usize = 0;
    while i < n
        invariant
            n <= ps@.len(),
            n <= av.len(),
            i <= n,
            out@.len() == i,
            rest@.len() == av.len() - i,
            forall|k: int| 0 <= k < rest@.len() ==> (#[trigger] rest@[k]).view() == av[k + i],
            forall|k: int|
                0 <= k < i ==> (#[trigger] out@[k]).0@ == ps@[k]@ && out@[k].1.view() == av[k],
        decreases n - i,
    {
        let v = rest.remove(0);
        out.push((ps[i].clone(), v));
        i = i + 1;
    }
    assert(binds_view(out@) =~= zip_binds(texts_view(ps@), av));
    out
}

/// Evaluates `e` in scope `scope`; forms may nest `fuel` deep.
pub fn eval(it: &mut Interp, e: &MalType, scope: usize, fuel: u64) -> (r: Result<MalType, EvalError>)
    requires
        scope < old(it).world().frames.len(),
    ensures
        (final(it).world(), result_view(r)) == eval_spec(
            old(it).world(),
            old(it).files(),
            e.view(),
            scope as int,
            fuel as nat,
        ),
        final(it).files() == old(it).files(),
        final(it).world().frames.len() >= old(it).world().frames.len(),
    decreases fuel, 1nat,
{
    match e {
        MalType::Symbol(k) => match it.env.find(scope, k.as_str()) {
            Some(v) => Ok(v),
            None => Ok(MalType::Nil),
        },
        MalType::List(es) => {
            proof {
                crate::types::lemma_list_view(*es);
            }
            if es.len() == 0 {
                Ok(e.duplicate())
            } else {
                eval_form(it, es, scope, fuel)
            }
        },
        _ => Ok(e.duplicate()),
    }
}

/// Evaluates the non-empty list `es`: a special form, or a call.
fn eval_form(it: &mut Interp, es: &Vec<MalType>, scope: usize, fuel: u64) -> (r: Result<
    MalType,
    EvalError,
>)
    requires
        scope < old(it).world().frames.len(),
        es@.len() > 0,
    ensures
        (final(it).world(), result_view(r)) == form_spec(
            old(it).world(),
            old(it).files(),
            seq_view(es@),
            scope as int,
            fuel as nat,
        ),
        final(it).files() == old(it).files(),
        final(it).world().frames.len() >= old(it).world().frames.len(),
    decreases fuel, 0nat,
{
    let ghost ses = seq_view(es@);
    let ghost fl = it.files();
    if fuel == 0 {
        return Err(EvalError::OutOfFuel);
    }
    let f = fuel - 1;
    match form_of_exec(&es[0]) {
        Some(Form::Def) => {
            if es.len() < 3 {
                return Err(EvalError::Malformed);
            }
            match &es[1] {
                MalType::Symbol(name) => {
                    let r = eval(it, &es[2], scope, f);
                    match r {
                        Ok(v) => {
                            it.env.set(scope, name.as_str(), v);
                            Ok(MalType::Nil)
                        },
                        Err(x) => Err(x),
                    }
                },
                _ => Err(EvalError::Malformed),
            }
        },
        Some(Form::Let) => {
            if es.len() < 3 {
                return Err(EvalError::Malformed);
            }
            match &es[1] {
                MalType::List(bs) => {
                    proof {
                        crate::types::lemma_list_view(*bs);
                    }
                    let ghost sbs = seq_view(bs@);
                    if !let_shape_exec(bs) {
                        return Err(EvalError::Malformed);
                    }
                    let ghost w0 = it.world();
                    let none: Vec<(String, MalType)> = Vec::new();
                    assert(binds_view(none@) =~= Seq::empty());
                    let c = it.env.child(scope, none);
                    proof {
                        assert(it.world() =~= push_frame(w0, scope as nat, Seq::empty()));
                    }
                    let mut i: usize = 0;
                    while i < bs.len() && bs.len() - i >= 2
                        invariant
                            fuel > 0,
                            f == fuel - 1,
                            ses == seq_view(es@),
                            es@.len() >= 3,
                            form_of(ses[0]) == Some(Form::Let),
                            ses[1] == Datum::List(sbs),
                            w0 == old(it).world(),
                            fl == old(it).files(),
                            sbs == seq_view(bs@),
                            let_shape(sbs),
                            i <= bs@.len(),
                            i % 2 == 0,
                            c < it.world().frames.len(),
                            c == w0.frames.len(),
                            scope < w0.frames.len(),
                            it.world().frames.len() >= w0.frames.len(),
                            it.files() == fl,
                            let_binds(push_frame(w0, scope as nat, Seq::empty()), fl, sbs, 0, c as int, f as nat)
                                == let_binds(it.world(), fl, sbs, i as int, c as int, f as nat),
                        decreases bs@.len() - i,
                    {
                        match &bs[i] {
                            MalType::Symbol(k) => {
                                let r = eval(it, &bs[i + 1], c, f);
                                match r {
                                    Ok(v) => {
                                        it.env.set(c, k.as_str(), v);
                                    },
                                    Err(x) => {
                                        return Err(x);
                                    },
                                }
                            },
                            _ => {
                                assert(sbs[i as int] is Sym);
                                return Err(EvalError::Malformed);
                            },
                        }
                        i = i + 2;
                    }
                    assert(let_binds(it.world(), fl, sbs, i as int, c as int, f as nat) == (
                        it.world(),
                        Ok::<Datum, Fault>(Datum::Nil),
                    ));
                    eval(it, &es[2], c, f)
                },
                _ => Err(EvalError::Malformed),
            }
        },
        Some(Form::Do) => {
            if es.len() < 2 {
                return Err(EvalError::Malformed);
            }
            let mut i: usize = 1;
            loop
                invariant
                    fuel > 0,
                    f == fuel - 1,
                    form_of(ses[0]) == Some(Form::Do),
                    fl == old(it).files(),
                    ses == seq_view(es@),
                    1 <= i < es@.len(),
                    scope < it.world().frames.len(),
                    it.files() == fl,
                    it.world().frames.len() >= old(it).world().frames.len(),
                    eval_do(old(it).world(), fl, ses, 1, scope as int, f as nat) == eval_do(
                        it.world(),
                        fl,
                        ses,
                        i as int,
                        scope as int,
                        f as nat,
                    ),
                decreases es@.len() - i,
            {
                let r = eval(it, &es[i], scope, f);
                match r {
                    Ok(v) => {
                        if i >= es.len() - 1 {
                            return Ok(v);
                        }
                    },
                    Err(x) => {
                        return Err(x);
                    },
                }
                i = i + 1;
            }
        },
        Some(Form::If) => {
            if es.len() < 4 {
                return Err(EvalError::Malformed);
            }
            let r = eval(it, &es[1], scope, f);
            match r {
                Ok(c) => {
                    if c.to_bool() {
                        eval(it, &es[2], scope, f)
                    } else {
                        eval(it, &es[3], scope, f)
                    }
                },
                Err(x) => Err(x),
            }
        },
        Some(Form::Fn) => {
            if es.len() < 3 {
                return Err(EvalError::Malformed);
            }
            match &es[1] {
                MalType::List(ps) => {
                    proof {
                        crate::types::lemma_list_view(*ps);
                    }
                    match symbol_names(ps) {
                        Some(names) => {
                            let body = es[2].duplicate();
                            let r = MalType::UserFn { scope, params: names, body: Box::new(body) };
                            assert(r.view() == Datum::Closure {
                                scope: scope as nat,
                                params: sym_names(seq_view(ps@)),
                                body: Box::new(ses[2]),
                            });
                            Ok(r)
                        },
                        None => Err(EvalError::Malformed),
                    }
                },
                _ => Err(EvalError::Malformed),
            }
        },
        Some(Form::Eval) => {
            if es.len() < 2 {
                return Err(EvalError::Malformed);
            }
            let r = eval(it, &es[1], scope, f);
            match r {
                Ok(v) => {
                    let top = it.env.root(scope);
                    eval(it, &v, top, f)
                },
                Err(x) => Err(x),
            }
        },
        None => {
            let mut vals: Vec<MalType> = Vec::new();
            let mut i: usize = 0;
            assert(seq_view(vals@) =~= Seq::empty());
            while i < es.len()
                invariant
                    fuel > 0,
                    f == fuel - 1,
                    form_of(ses[0]) is None,
                    fl == old(it).files(),
                    ses == seq_view(es@),
                    i <= es@.len(),
                    vals@.len() == i,
                    scope < it.world().frames.len(),
                    it.files() == fl,
                    it.world().frames.len() >= old(it).world().frames.len(),
                    eval_args(old(it).world(), fl, ses, 0, Seq::empty(), scope as int, f as nat)
                        == eval_args(
                        it.world(),
                        fl,
                        ses,
                        i as int,
                        seq_view(vals@),
                        scope as int,
                        f as nat,
                    ),
                decreases es@.len() - i,
            {
                let r = eval(it, &es[i], scope, f);
                match r {
                    Ok(v) => {
                        proof {
                            assert(seq_view(vals@.push(v)) =~= seq_view(vals@).push(v.view()));
                        }
                        vals.push(v);
                    },
                    Err(x) => {
                        return Err(x);
                    },
                }
                i = i + 1;
            }
            let ghost vs = seq_view(vals@);
            assert(eval_args(it.world(), fl, ses, i as int, vs, scope as int, f as nat) == (
                it.world(),
                Ok::<Seq<Datum>, Fault>(vs),
            ));
            let fv = vals.remove(0);
            assert(seq_view(vals@) =~= vs.drop_first());
            apply(it, fv, vals, f)
        },
    }
}

/// Calls `fv` on `args`.
fn apply(it: &mut Interp, fv: MalType, args: Vec<MalType>, f: u64) -> (r: Result<MalType, EvalError>)
    ensures
        (final(it).world(), result_view(r)) == apply_spec(
            old(it).world(),
            old(it).files(),
            fv.view(),
            seq_view(args@),
            f as nat,
        ),
        final(it).files() == old(it).files(),
        final(it).world().frames.len() >= old(it).world().frames.len(),
    decreases f, 2nat,
{
    match fv {
        MalType::BuiltinFn(n) => call_native(it, n, args),
        MalType::UserFn { scope, params, body } => {
            let binds = zip_params(&params, args);
            let ghost w0 = it.world();
            let nf = it.env.child(scope, binds);
            assert(it.world() =~= push_frame(w0, scope as nat, binds_view(binds@)));
            eval(it, &body, nf, f)
        },
        _ => Err(EvalError::NotAFunction),
    }
}

fn num_of(v: &MalType) -> (r: Option<i64>)
    ensures
        match r {
            Some(x) => v.view() == Datum::Num(x as int),
            None => !(v.view() is Num),
        },
{
    match v {
        MalType::Number(x) => Some(*x),
        _ => None,
    }
}

/// Runs the native function `n` on `args`.
fn call_native(it: &mut Interp, n: Native, args: Vec<MalType>) -> (r: Result<MalType, EvalError>)
    ensures
        (final(it).world(), result_view(r)) == native_spec(
            old(it).world(),
            old(it).files(),
            n,
            seq_view(args@),
        ),
        final(it).files() == old(it).files(),
        final(it).world().frames.len() >= old(it).world().frames.len(),
{
    let ghost a = seq_view(args@);
    match n {
        Native::Add => {
            let mut acc: i64 = 0;
            let mut i: usize = 0;
            while i < args.len()
                invariant
                    n == Native::Add,
                    it.world() == old(it).world(),
                    it.files() == old(it).files(),
                    a == seq_view(args@),
                    i <= args@.len(),
                    sum_from(a, 0, 0) == sum_from(a, i as int, acc as int),
                decreases args@.len() - i,
            {
                match num_of(&args[i]) {
                    Some(x) => match acc.checked_add(x) {
                        Some(t) => {
                            acc = t;
                        },
                        None => {
                            return Err(EvalError::Overflow);
                        },
                    },
                    None => {
                        return Err(EvalError::BadArgs);
                    },
                }
                i = i + 1;
            }
            assert(sum_from(a, i as int, acc as int) == Ok::<int, Fault>(acc as int));
            Ok(MalType::Number(acc))
        },
        Native::Mul => {
            let mut acc: i64 = 1;
            let mut i: usize = 0;
            while i < args.len()
                invariant
                    n == Native::Mul,
                    it.world() == old(it).world(),
                    it.files() == old(it).files(),
                    a == seq_view(args@),
                    i <= args@.len(),
                    product_from(a, 0, 1) == product_from(a, i as int, acc as int),
                decreases args@.len() - i,
            {
                match num_of(&args[i]) {
                    Some(x) => match acc.checked_mul(x) {
                        Some(t) => {
                            acc = t;
                        },
                        None => {
                            return Err(EvalError::Overflow);
                        },
                    },
                    None => {
                        return Err(EvalError::BadArgs);
                    },
                }
                i = i + 1;
            }
            assert(product_from(a, i as int, acc as int) == Ok::<int, Fault>(acc as int));
            Ok(MalType::Number(acc))
        },
        Native::Prn => {
            if args.len() == 0 {
                return Err(EvalError::BadArgs);
            }
            let t = args[0].to_text();
            it.printed.push(t);
            assert(texts_view(it.printed@) =~= texts_view(old(it).printed@).push(t@));
            Ok(MalType::Nil)
        },
        Native::List => {
            proof {
                crate::types::lemma_list_view(args);
            }
            Ok(MalType::List(args))
        },
        Native::IsList => {
            if args.len() == 0 {
                return Err(EvalError::BadArgs);
            }
            match &args[0] {
                MalType::List(_) => Ok(MalType::Bool(true)),
                _ => Ok(MalType::Bool(false)),
            }
        },
        Native::IsEmpty => {
            if args.len() == 0 {
                return Err(EvalError::BadArgs);
            }
            match &args[0] {
                MalType::List(l) => {
                    proof {
                        crate::types::lemma_list_view(*l);
                    }
                    Ok(MalType::Bool(l.len() == 0))
                },
                _ => Err(EvalError::BadArgs),
            }
        },
        Native::Count => {
            if args.len() == 0 {
                return Err(EvalError::BadArgs);
            }
            match &args[0] {
                MalType::List(l) => {
                    proof {
                        crate::types::lemma_list_view(*l);
                    }
                    if l.len() as u64 > i64::MAX as u64 {
                        Err(EvalError::Overflow)
                    } else {
                        Ok(MalType::Number(l.len() as i64))
                    }
                },
                _ => Err(EvalError::BadArgs),
            }
        },
        Native::Equals => {
            if args.len() < 2 {
                return Err(EvalError::BadArgs);
            }
            Ok(MalType::Bool(args[0].equals(&args[1])))
        },
        Native::Less | Native::LessEq | Native::Greater | Native::GreaterEq => {
            if args.len() < 2 {
                return Err(EvalError::BadArgs);
            }
            let r = match (num_of(&args[0]), num_of(&args[1])) {
                (Some(x), Some(y)) => match n {
                    Native::Less => x < y,
                    Native::LessEq => x <= y,
                    Native::Greater => x > y,
                    _ => x >= y,
                },
                _ => match n {
                    Native::LessEq | Native::GreaterEq => args[0].equals(&args[1]),
                    _ => false,
                },
            };
            Ok(MalType::Bool(r))
        },
        Native::ReadString => {
            if args.len() == 0 {
                return Err(EvalError::BadArgs);
            }
            match &args[0] {
                MalType::Str(s) => match read_str(s.as_str()) {
                    Some(v) => Ok(v),
                    None => Err(EvalError::Unreadable),
                },
                _ => Err(EvalError::BadArgs),
            }
        },
        Native::ReadFile => {
            if args.len() == 0 {
                return Err(EvalError::BadArgs);
            }
            match &args[0] {
                MalType::Str(name) => match it.file(name.as_str()) {
                    Some(c) => Ok(MalType::Str(c)),
                    None => Err(EvalError::NeedsFile(name.clone())),
                },
                _ => Err(EvalError::BadArgs),
            }
        },
        Native::Str => {
            let mut out = String::new();
            let mut i: usize = 0;
            while i < args.len()
                invariant
                    n == Native::Str,
                    it.world() == old(it).world(),
                    it.files() == old(it).files(),
                    a == seq_view(args@),
                    i <= args@.len(),
                    out@ == show_items(a, i as nat, false),
                decreases args@.len() - i,
            {
                if i > 0 {
                    crate::types::push_char(&mut out, ' ');
                }
                args[i].write_to(&mut out, false);
                i = i + 1;
                assert(out@ =~= show_items(a, i as nat, false));
            }
            Ok(MalType::Str(out))
        },
    }
}

} // verus!
