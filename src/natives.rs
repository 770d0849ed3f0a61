use vstd::prelude::*;

use crate::types::Native;

verus! {

/// The names under which the native functions are bound in the global scope.
pub open spec fn native_table() -> Seq<(Seq<char>, Native)> {
    seq![
        (seq!['+'], Native::Add),
        (seq!['*'], Native::Mul),
        (seq!['p', 'r', 'n'], Native::Prn),
        (seq!['l', 'i', 's', 't'], Native::List),
        (seq!['l', 'i', 's', 't', '?'], Native::IsList),
        (seq!['e', 'm', 'p', 't', 'y', '?'], Native::IsEmpty),
        (seq!['c', 'o', 'u', 'n', 't'], Native::Count),
        (seq!['='], Native::Equals),
        (seq!['<'], Native::Less),
        (seq!['<', '='], Native::LessEq),
        (seq!['>'], Native::Greater),
        (seq!['>', '='], Native::GreaterEq),
        (seq!['r', 'e', 'a', 'd', '-', 's', 't', 'r', 'i', 'n', 'g'], Native::ReadString),
        (seq!['r', 'e', 'a', 'd', '-', 'f', 'i', 'l', 'e'], Native::ReadFile),
        (seq!['s', 'l', 'u', 'r', 'p'], Native::ReadFile),
        (seq!['s', 't', 'r'], Native::Str)
    ]
}

/// The native functions and their names, to be bound in the global scope.
pub fn namespace() -> (r: Vec<(&'static str, Native)>)
    ensures
        r@.len() == native_table().len(),
        forall|i: int|
            0 <= i < r@.len() ==> (#[trigger] r@[i]).0@ == native_table()[i].0 && r@[i].1
                == native_table()[i].1,
{
    proof {
        reveal_strlit("+");
        reveal_strlit("*");
        reveal_strlit("prn");
        reveal_strlit("list");
        reveal_strlit("list?");
        reveal_strlit("empty?");
        reveal_strlit("count");
        reveal_strlit("=");
        reveal_strlit("<");
        reveal_strlit("<=");
        reveal_strlit(">");
        reveal_strlit(">=");
        reveal_strlit("read-string");
        reveal_strlit("read-file");
        reveal_strlit("slurp");
        reveal_strlit("str");
    }
    assert("+"@ =~= seq!['+']);
    assert("*"@ =~= seq!['*']);
    assert("prn"@ =~= seq!['p', 'r', 'n']);
    assert("list"@ =~= seq!['l', 'i', 's', 't']);
    assert("list?"@ =~= seq!['l', 'i', 's', 't', '?']);
    assert("empty?"@ =~= seq!['e', 'm', 'p', 't', 'y', '?']);
    assert("count"@ =~= seq!['c', 'o', 'u', 'n', 't']);
    assert("="@ =~= seq!['=']);
    assert("<"@ =~= seq!['<']);
    assert("<="@ =~= seq!['<', '=']);
    assert(">"@ =~= seq!['>']);
    assert(">="@ =~= seq!['>', '=']);
    assert("read-string"@ =~= seq!['r', 'e', 'a', 'd', '-', 's', 't', 'r', 'i', 'n', 'g']);
    assert("read-file"@ =~= seq!['r', 'e', 'a', 'd', '-', 'f', 'i', 'l', 'e']);
    assert("slurp"@ =~= seq!['s', 'l', 'u', 'r', 'p']);
    assert("str"@ =~= seq!['s', 't', 'r']);
    let mut r: Vec<(&'static str, Native)> = Vec::new();
    r.push(("+", Native::Add));
    r.push(("*", Native::Mul));
    r.push(("prn", Native::Prn));
    r.push(("list", Native::List));
    r.push(("list?", Native::IsList));
    r.push(("empty?", Native::IsEmpty));
    r.push(("count", Native::Count));
    r.push(("=", Native::Equals));
    r.push(("<", Native::Less));
    r.push(("<=", Native::LessEq));
    r.push((">", Native::Greater));
    r.push((">=", Native::GreaterEq));
    r.push(("read-string", Native::ReadString));
    r.push(("read-file", Native::ReadFile));
    r.push(("slurp", Native::ReadFile));
    r.push(("str", Native::Str));
    r
}

} // verus!
