use vstd::prelude::*;

use crate::types::{same_text, Datum, MalType};

verus! {

/// The model of one scope: the index of its lexical parent and its bindings in
/// the order they were made.
pub struct FrameView {
    pub outer: Option<nat>,
    pub binds: Seq<(Seq<char>, Datum)>,
}

/// The value bound to `k` in one scope: the latest binding of that name wins.
pub open spec fn local(b: Seq<(Seq<char>, Datum)>, k: Seq<char>) -> Option<Datum>
    decreases b.len(),
{
    if b.len() == 0 {
        None
    } else if b.last().0 == k {
        Some(b.last().1)
    } else {
        local(b.drop_last(), k)
    }
}

/// The position of the latest binding of `k`, or -1.
pub open spec fn last_index(b: Seq<(Seq<char>, Datum)>, k: Seq<char>) -> int
    decreases b.len(),
{
    if b.len() == 0 {
        -1
    } else if b.last().0 == k {
        b.len() - 1
    } else {
        last_index(b.drop_last(), k)
    }
}

/// The bindings after binding `k` to `v`: the latest binding of `k` gets the
/// new value, or a binding is added when there is none.
pub open spec fn put(b: Seq<(Seq<char>, Datum)>, k: Seq<char>, v: Datum) -> Seq<(Seq<char>, Datum)> {
    let i = last_index(b, k);
    if i >= 0 {
        b.update(i, (k, v))
    } else {
        b.push((k, v))
    }
}

proof fn lemma_last_index(b: Seq<(Seq<char>, Datum)>, k: Seq<char>)
    ensures
        -1 <= last_index(b, k) < b.len(),
        last_index(b, k) >= 0 ==> b[last_index(b, k)].0 == k,
        last_index(b, k) >= 0 ==> local(b, k) == Some(b[last_index(b, k)].1),
        last_index(b, k) < 0 ==> local(b, k) is None,
        forall|j: int| last_index(b, k) < j < b.len() ==> (#[trigger] b[j]).0 != k,
    decreases b.len(),
{
    if b.len() > 0 && b.last().0 != k {
        lemma_last_index(b.drop_last(), k);
        assert forall|j: int| last_index(b, k) < j < b.len() implies (#[trigger] b[j]).0 != k by {
            if j < b.len() - 1 {
                assert(b[j] == b.drop_last()[j]);
            }
        }
    }
}

/// After `put`, `k` has the new value and every other name keeps its own.
pub proof fn lemma_local_put(b: Seq<(Seq<char>, Datum)>, k: Seq<char>, v: Datum, q: Seq<char>)
    ensures
        local(put(b, k, v), q) == if q == k {
            Some(v)
        } else {
            local(b, q)
        },
    decreases b.len(),
{
    lemma_last_index(b, k);
    let i = last_index(b, k);
    if i < 0 {
        assert(put(b, k, v).drop_last() =~= b);
    } else if i == b.len() - 1 {
        assert(put(b, k, v).drop_last() =~= b.drop_last());
    } else {
        let c = b.drop_last();
        assert(last_index(c, k) == i);
        lemma_local_put(c, k, v, q);
        assert(put(b, k, v).drop_last() =~= put(c, k, v));
        assert(put(b, k, v).last() == b.last());
    }
}

/// Lookup from scope `s` outward. A parent link that does not point to an
/// earlier scope ends the chain.
pub open spec fn lookup(fs: Seq<FrameView>, s: int, k: Seq<char>) -> Option<Datum>
    decreases s,
{
    if s < 0 || s >= fs.len() {
        None
    } else {
        match local(fs[s].binds, k) {
            Some(v) => Some(v),
            None => match fs[s].outer {
                Some(o) => if o < s {
                    lookup(fs, o as int, k)
                } else {
                    None
                },
                None => None,
            },
        }
    }
}

/// The outermost scope reached from `s` by following parent links.
pub open spec fn root_of(fs: Seq<FrameView>, s: int) -> int
    decreases s,
{
    if s < 0 || s >= fs.len() {
        s
    } else {
        match fs[s].outer {
            Some(o) => if o < s {
                root_of(fs, o as int)
            } else {
                s
            },
            None => s,
        }
    }
}

pub open spec fn binds_view(b: Seq<(String, MalType)>) -> Seq<(Seq<char>, Datum)> {
    Seq::new(b.len(), |i: int| (b[i].0@, b[i].1.view()))
}

/// Where the latest binding of `key` stands, if there is one.
fn position_of(binds: &Vec<(String, MalType)>, key: &str) -> (r: Option<usize>)
    ensures
        match r {
            Some(i) => i < binds@.len() && last_index(binds_view(binds@), key@) == i,
            None => last_index(binds_view(binds@), key@) == -1,
        },
{
    let ghost b = binds_view(binds@);
    let mut j: usize = binds.len();
    assert(b.subrange(0, j as int) =~= b);
    while j > 0
        invariant
            j <= binds@.len(),
            b == binds_view(binds@),
            last_index(b, key@) == last_index(b.subrange(0, j as int), key@),
        decreases j,
    {
        let ghost c = b.subrange(0, j as int);
        assert(c.drop_last() =~= b.subrange(0, j - 1));
        assert(c.last() == b[j - 1]);
        if same_text(binds[j - 1].0.as_str(), key) {
            return Some(j - 1);
        }
        j = j - 1;
    }
    None
}

struct Frame {
    outer: Option<usize>,
    binds: Vec<(String, MalType)>,
}

impl Frame {
    spec fn view(&self) -> FrameView {
        FrameView {
            outer: match self.outer {
                Some(o) => Some(o as nat),
                None => None,
            },
            binds: binds_view(self.binds@),
        }
    }
}

/// All scopes of a session, addressed by index. Scope 0 is the global scope;
/// a scope made by `child` names its lexical parent, and a parent link that
/// does not point to an earlier scope is treated as absent.
pub struct Env {
    frames: Vec<Frame>,
}

impl View for Env {
    type V = Seq<FrameView>;

    closed spec fn view(&self) -> Seq<FrameView> {
        Seq::new(self.frames@.len(), |i: int| self.frames@[i].view())
    }
}

impl Env {
    /// Scopes that begin with one global scope holding `binds`; of a name
    /// bound twice the later value counts.
    pub fn new(binds: Vec<(String, MalType)>) -> (r: Env)
        ensures
            r@ == seq![FrameView { outer: None, binds: binds_view(binds@) }],
    {
        let mut frames: Vec<Frame> = Vec::new();
        frames.push(Frame { outer: None, binds });
        let r = Env { frames };
        assert(r@ =~= seq![FrameView { outer: None, binds: binds_view(binds@) }]);
        r
    }

    /// The number of scopes.
    pub fn len(&self) -> (r: usize)
        ensures
            r == self@.len(),
    {
        self.frames.len()
    }

    /// Adds a scope whose parent is `outer` and returns its index.
    pub fn child(&mut self, outer: usize, binds: Vec<(String, MalType)>) -> (r: usize)
        ensures
            r == old(self)@.len(),
            final(self)@ == old(self)@.push(
                FrameView { outer: Some(outer as nat), binds: binds_view(binds@) },
            ),
    {
        let r = self.frames.len();
        self.frames.push(Frame { outer: Some(outer), binds });
        assert(self@ =~= old(self)@.push(
            FrameView { outer: Some(outer as nat), binds: binds_view(binds@) },
        ));
        r
    }

    /// The value of `key` seen from `scope`, or `None` when no scope on the
    /// chain binds it.
    pub fn find(&self, scope: usize, key: &str) -> (r: Option<MalType>)
        ensures
            match r {
                Some(v) => lookup(self@, scope as int, key@) == Some(v.view()),
                None => lookup(self@, scope as int, key@) is None,
            },
    {
        let mut cur: usize = scope;
        loop
            invariant
                lookup(self@, scope as int, key@) == lookup(self@, cur as int, key@),
            decreases cur,
        {
            if cur >= self.frames.len() {
                return None;
            }
            let frame = &self.frames[cur];
            let mut j: usize = frame.binds.len();
            assert(binds_view(frame.binds@).subrange(0, j as int) =~= binds_view(frame.binds@));
            while j > 0
                invariant
                    lookup(self@, scope as int, key@) == lookup(self@, cur as int, key@),
                    cur < self@.len(),
                    *frame == self.frames@[cur as int],
                    j <= frame.binds@.len(),
                    local(self@[cur as int].binds, key@) == local(
                        binds_view(frame.binds@).subrange(0, j as int),
                        key@,
                    ),
                decreases j,
            {
                let ghost b = binds_view(frame.binds@).subrange(0, j as int);
                assert(b.drop_last() =~= binds_view(frame.binds@).subrange(0, j - 1));
                if same_text(frame.binds[j - 1].0.as_str(), key) {
                    let v = frame.binds[j - 1].1.duplicate();
                    assert(b.last() == (frame.binds@[j - 1].0@, frame.binds@[j - 1].1.view()));
                    assert(local(b, key@) == Some(v.view()));
                    assert(self@[cur as int] == frame.view());
                    return Some(v);
                }
                j = j - 1;
            }
            assert(binds_view(frame.binds@).subrange(0, 0) =~= Seq::empty());
            match frame.outer {
                Some(o) => {
                    if o < cur {
                        cur = o;
                    } else {
                        return None;
                    }
                },
                None => {
                    return None;
                },
            }
        }
    }

    /// Binds `key` to `val` in `scope` itself, replacing the value it had
    /// there.
    pub fn set(&mut self, scope: usize, key: &str, val: MalType)
        requires
            scope < old(self)@.len(),
        ensures
            final(self)@ == old(self)@.update(
                scope as int,
                FrameView {
                    outer: old(self)@[scope as int].outer,
                    binds: put(old(self)@[scope as int].binds, key@, val.view()),
                },
            ),
    {
        let ghost kv = key@;
        let ghost vv = val.view();
        let ghost b0 = old(self)@[scope as int].binds;
        let mut frame = self.frames.remove(scope);
        assert(binds_view(frame.binds@) == b0);
        match position_of(&frame.binds, key) {
            Some(i) => {
                frame.binds.set(i, (key.to_owned(), val));
            },
            None => {
                frame.binds.push((key.to_owned(), val));
            },
        }
        assert(binds_view(frame.binds@) =~= put(b0, kv, vv));
        self.frames.insert(scope, frame);
        assert(self@ =~= old(self)@.update(
            scope as int,
            FrameView { outer: old(self)@[scope as int].outer, binds: put(b0, kv, vv) },
        ));
    }

    /// A copy of every scope.
    pub fn duplicate(&self) -> (r: Env)
        ensures
            r@ == self@,
    {
        let mut frames: Vec<Frame> = Vec::new();
        let mut i: usize = 0;
        while i < self.frames.len()
            invariant
                i <= self.frames@.len(),
                frames@.len() == i,
                forall|k: int| 0 <= k < i ==> #[trigger] frames@[k].view() == self.frames@[k].view(),
            decreases self.frames@.len() - i,
        {
            let f = &self.frames[i];
            let mut binds: Vec<(String, MalType)> = Vec::new();
            let mut j: usize = 0;
            while j < f.binds.len()
                invariant
                    j <= f.binds@.len(),
                    binds@.len() == j,
                    forall|k: int|
                        0 <= k < j ==> (#[trigger] binds@[k]).0@ == f.binds@[k].0@ && binds@[k].1.view()
                            == f.binds@[k].1.view(),
                decreases f.binds@.len() - j,
            {
                let b = (f.binds[j].0.clone(), f.binds[j].1.duplicate());
                binds.push(b);
                j = j + 1;
            }
            assert(binds_view(binds@) =~= binds_view(f.binds@));
            frames.push(Frame { outer: f.outer, binds });
            i = i + 1;
        }
        let r = Env { frames };
        assert(r@ =~= self@);
        r
    }

    /// The global scope reached from `scope`.
    pub fn root(&self, scope: usize) -> (r: usize)
        ensures
            r as int == root_of(self@, scope as int),
            r <= scope,
    {
        let mut cur: usize = scope;
        loop
            invariant
                cur <= scope,
                root_of(self@, scope as int) == root_of(self@, cur as int),
            decreases cur,
        {
            if cur >= self.frames.len() {
                return cur;
            }
            match self.frames[cur].outer {
                Some(o) => {
                    if o < cur {
                        cur = o;
                    } else {
                        return cur;
                    }
                },
                None => {
                    return cur;
                },
            }
        }
    }
}

} // verus!
