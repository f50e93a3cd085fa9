use vstd::prelude::*;

use crate::value::{Datum, NativeFn, NativeOp, Value};

verus! {

/// The bindings that a list of entries stands for; a later entry for a name
/// would win over an earlier one, though a well-formed environment has none.
pub open spec fn map_of(es: Seq<(String, Value)>) -> Map<Seq<char>, Datum>
    decreases es.len(),
{
    if es.len() == 0 {
        Map::empty()
    } else {
        map_of(es.drop_last()).insert(es.last().0@, es.last().1@)
    }
}

pub open spec fn names_unique(es: Seq<(String, Value)>) -> bool {
    forall|i: int, j: int| 0 <= i < j < es.len() ==> (#[trigger] es[i]).0@ != (#[trigger] es[j]).0@
}

proof fn lemma_map_of_absent(es: Seq<(String, Value)>, k: Seq<char>)
    requires
        forall|i: int| 0 <= i < es.len() ==> (#[trigger] es[i]).0@ != k,
    ensures
        !map_of(es).contains_key(k),
    decreases es.len(),
{
    if es.len() > 0 {
        let d = es.drop_last();
        assert forall|i: int| 0 <= i < d.len() implies (#[trigger] d[i]).0@ != k by {
            assert(d[i] == es[i]);
        }
        lemma_map_of_absent(d, k);
    }
}

proof fn lemma_map_of_at(es: Seq<(String, Value)>, i: int)
    requires
        names_unique(es),
        0 <= i < es.len(),
    ensures
        map_of(es).contains_key(es[i].0@),
        map_of(es)[es[i].0@] == es[i].1@,
    decreases es.len(),
{
    let d = es.drop_last();
    if i < es.len() - 1 {
        assert(d[i] == es[i]);
        assert(names_unique(d)) by {
            assert forall|a: int, b: int| 0 <= a < b < d.len() implies (#[trigger] d[a]).0@ != (
            #[trigger] d[b]).0@ by {
                assert(d[a] == es[a] && d[b] == es[b]);
            }
        }
        lemma_map_of_at(d, i);
        assert(es[i].0@ != es[es.len() - 1].0@);
    }
}

proof fn lemma_map_of_update(es: Seq<(String, Value)>, i: int, v: Value)
    requires
        names_unique(es),
        0 <= i < es.len(),
    ensures
        map_of(es.update(i, (es[i].0, v))) == map_of(es).insert(es[i].0@, v@),
    decreases es.len(),
{
    let e2 = es.update(i, (es[i].0, v));
    let d = es.drop_last();
    if i == es.len() - 1 {
        assert(e2.drop_last() =~= d);
        assert(map_of(e2) =~= map_of(es).insert(es[i].0@, v@));
    } else {
        assert(names_unique(d)) by {
            assert forall|a: int, b: int| 0 <= a < b < d.len() implies (#[trigger] d[a]).0@ != (
            #[trigger] d[b]).0@ by {
                assert(d[a] == es[a] && d[b] == es[b]);
            }
        }
        assert(d[i] == es[i]);
        lemma_map_of_update(d, i, v);
        assert(e2.drop_last() =~= d.update(i, (d[i].0, v)));
        assert(es[i].0@ != es[es.len() - 1].0@);
        assert(map_of(e2) =~= map_of(es).insert(es[i].0@, v@));
    }
}

/// The names that every new environment binds, each to its builtin.
pub open spec fn with_builtins(m: Map<Seq<char>, Datum>) -> Map<Seq<char>, Datum> {
    m.insert(seq!['+'], Datum::Builtin(NativeOp::Add)).insert(
        seq!['-'],
        Datum::Builtin(NativeOp::Sub),
    ).insert(seq!['*'], Datum::Builtin(NativeOp::Mul)).insert(
        seq!['/'],
        Datum::Builtin(NativeOp::Div),
    ).insert(seq!['e', 'q', '?'], Datum::Builtin(NativeOp::Eq))
}

/// The single global table from names to values. Names are unique; binding a
/// name again replaces its value.
pub struct Environment {
    entries: Vec<(String, Value)>,
}

impl View for Environment {
    type V = Map<Seq<char>, Datum>;

    closed spec fn view(&self) -> Map<Seq<char>, Datum> {
        map_of(self.entries@)
    }
}

impl Environment {
    pub closed spec fn wf(&self) -> bool {
        names_unique(self.entries@)
    }

    /// An environment that binds no name at all.
    pub fn empty() -> (r: Environment)
        ensures
            r.wf(),
            r@ == Map::<Seq<char>, Datum>::empty(),
    {
        Environment { entries: Vec::new() }
    }

    /// An environment that binds the builtins `+ - * / eq?` and nothing else.
    pub fn new() -> (r: Environment)
        ensures
            r.wf(),
            r@ == with_builtins(Map::empty()),
    {
        let mut env = Environment::empty();
        add_default_funcs(&mut env);
        env
    }

    /// The value bound to `name`, if any.
    pub fn lookup(&self, name: &String) -> (r: Option<Value>)
        requires
            self.wf(),
        ensures
            match r {
                Some(v) => self@.contains_key(name@) && v@ == self@[name@],
                None => !self@.contains_key(name@),
            },
    {
        let mut i: usize = 0;
        while i < self.entries.len()
            invariant
                self.wf(),
                i <= self.entries.len(),
                forall|k: int| 0 <= k < i ==> (#[trigger] self.entries@[k]).0@ != name@,
            decreases self.entries.len() - i,
        {
            if self.entries[i].0 == *name {
                proof {
                    lemma_map_of_at(self.entries@, i as int);
                }
                return Some(self.entries[i].1.deep_copy());
            }
            i = i + 1;
        }
        proof {
            lemma_map_of_absent(self.entries@, name@);
        }
        None
    }

    /// Binds `name` to `value`, replacing any earlier binding of `name`.
    pub fn define(&mut self, name: String, value: Value)
        requires
            old(self).wf(),
        ensures
            final(self).wf(),
            final(self)@ == old(self)@.insert(name@, value@),
    {
        let mut i: usize = 0;
        while i < self.entries.len()
            invariant
                self.wf(),
                self.entries@ == old(self).entries@,
                i <= self.entries.len(),
                forall|k: int| 0 <= k < i ==> (#[trigger] self.entries@[k]).0@ != name@,
            decreases self.entries.len() - i,
        {
            if self.entries[i].0 == name {
                proof {
                    lemma_map_of_update(self.entries@, i as int, value);
                }
                let ghost before = self.entries@;
                let key = self.entries[i].0.clone();
                self.entries.set(i, (key, value));
                proof {
                    assert(self.entries@ =~= before.update(i as int, (before[i as int].0, value)));
                }
                return;
            }
            i = i + 1;
        }
        let ghost before = self.entries@;
        self.entries.push((name, value));
        proof {
            assert(self.entries@.drop_last() =~= before);
        }
    }

    /// A separate environment with the same bindings.
    pub fn snapshot(&self) -> (r: Environment)
        requires
            self.wf(),
        ensures
            r.wf(),
            r@ == self@,
    {
        let mut out: Vec<(String, Value)> = Vec::new();
        let mut i: usize = 0;
        while i < self.entries.len()
            invariant
                self.wf(),
                i <= self.entries.len(),
                out.len() == i,
                forall|k: int|
                    0 <= k < i ==> (#[trigger] out@[k]).0@ == self.entries@[k].0@ && out@[k].1@
                        == self.entries@[k].1@,
                map_of(out@) == map_of(self.entries@.subrange(0, i as int)),
            decreases self.entries.len() - i,
        {
            let name = self.entries[i].0.clone();
            let value = self.entries[i].1.deep_copy();
            let ghost before = out@;
            out.push((name, value));
            proof {
                assert(out@.drop_last() =~= before);
                assert(self.entries@.subrange(0, i + 1).drop_last() =~= self.entries@.subrange(
                    0,
                    i as int,
                ));
            }
            i = i + 1;
        }
        assert(self.entries@.subrange(0, i as int) =~= self.entries@);
        let r = Environment { entries: out };
        assert(names_unique(r.entries@)) by {
            assert forall|a: int, b: int| 0 <= a < b < r.entries@.len() implies (
            #[trigger] r.entries@[a]).0@ != (#[trigger] r.entries@[b]).0@ by {
                assert(self.entries@[a].0@ != self.entries@[b].0@);
            }
        }
        r
    }
}

/// Binds the builtins `+ - * / eq?` in `env`, replacing earlier bindings of
/// those names.
pub fn add_default_funcs(env: &mut Environment)
    requires
        old(env).wf(),
    ensures
        final(env).wf(),
        final(env)@ == with_builtins(old(env)@),
{
    proof {
        reveal_strlit("+");
        reveal_strlit("-");
        reveal_strlit("*");
        reveal_strlit("/");
        reveal_strlit("eq?");
    }
    let ghost e0 = env@;
    let plus = String::from_str("+");
    assert(plus@ =~= seq!['+']);
    env.define(plus, Value::Builtin(NativeFn { op: NativeOp::Add }));
    let minus = String::from_str("-");
    assert(minus@ =~= seq!['-']);
    env.define(minus, Value::Builtin(NativeFn { op: NativeOp::Sub }));
    let times = String::from_str("*");
    assert(times@ =~= seq!['*']);
    env.define(times, Value::Builtin(NativeFn { op: NativeOp::Mul }));
    let over = String::from_str("/");
    assert(over@ =~= seq!['/']);
    env.define(over, Value::Builtin(NativeFn { op: NativeOp::Div }));
    let same = String::from_str("eq?");
    assert(same@ =~= seq!['e', 'q', '?']);
    env.define(same, Value::Builtin(NativeFn { op: NativeOp::Eq }));
}

impl Default for Environment {
    fn default() -> (r: Environment)
        ensures
            r.wf(),
            r@ == with_builtins(Map::empty()),
    {
        Environment::new()
    }
}

} // verus!
