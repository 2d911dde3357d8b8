//! Environment variables as plain values, and the expansion of `%NAME%`.
use crate::text::{chars_of, find_chars, find_text, lemma_find_text, lowercase, str_eq, string_of};
use vstd::prelude::*;

verus! {

/// The variables of an environment, with their values.
pub struct Env {
    pub vars: Vec<(String, String)>,
}

/// The value of the first variable of a name, whatever its case.
pub open spec fn value_of(vars: Seq<(String, String)>, name: Seq<char>) -> Option<Seq<char>>
    decreases vars.len(),
{
    if vars.len() == 0 {
        None
    } else if lowercase(vars[0].0@) == lowercase(name) {
        Some(vars[0].1@)
    } else {
        value_of(vars.drop_first(), name)
    }
}

impl Env {
    /// The value of a variable.
    pub open spec fn get(&self, name: Seq<char>) -> Option<Seq<char>> {
        value_of(self.vars@, name)
    }

    /// The value of a variable. The case of its name does not matter.
    pub fn var(&self, name: &str) -> (r: Option<String>)
        ensures
            r is Some <==> self.get(name@) is Some,
            r is Some ==> r->0@ == self.get(name@)->0,
    {
        let low = name.to_lowercase();
        let mut i: usize = 0;
        assert(self.vars@.skip(0) =~= self.vars@);
        while i < self.vars.len()
            invariant
                i <= self.vars.len(),
                low@ == lowercase(name@),
                value_of(self.vars@.skip(i as int), name@) == self.get(name@),
            decreases self.vars.len() - i,
        {
            assert(self.vars@.skip(i as int)[0] == self.vars@[i as int]);
            if str_eq(self.vars[i].0.as_str().to_lowercase().as_str(), low.as_str()) {
                return Some(self.vars[i].1.clone());
            }
            assert(self.vars@.skip(i as int).drop_first() =~= self.vars@.skip(i + 1));
            i = i + 1;
        }
        None
    }

    /// The value of a variable, or another text.
    pub fn var_or(&self, name: &str, other: &str) -> (r: String)
        ensures
            r@ == self.or(name@, other@),
    {
        match self.var(name) {
            Some(v) => v,
            None => other.to_owned(),
        }
    }

    /// The value of a variable, or another text.
    pub open spec fn or(&self, name: Seq<char>, other: Seq<char>) -> Seq<char> {
        match self.get(name) {
            Some(v) => v,
            None => other,
        }
    }

    /// No value holds a `%`.
    pub open spec fn plain(&self) -> bool {
        forall|i: int|
            0 <= i < self.vars@.len() ==> !(#[trigger] self.vars@[i]).1@.contains('%')
    }
}

/// What replaces the first `%..%` of a text: the value of the variable where
/// there is one, else only the first `%` goes. `None` where no two `%` are left.
pub open spec fn expand_step(s: Seq<char>, env: Env) -> Option<Seq<char>> {
    let a = find_text(s, seq!['%'], 0);
    let b = find_text(s, seq!['%'], a + 1);
    let name = s.subrange(a + 1, b);
    if a < 0 || b < 0 {
        None
    } else if name.len() == 0 || env.get(name) is None {
        Some(s.take(a) + s.skip(a + 1))
    } else {
        Some(s.take(a) + env.get(name)->0 + s.skip(b + 1))
    }
}

/// The text after all steps, if at most `n` are needed. A value that holds a
/// `%` is expanded in turn, so there may be no end.
pub open spec fn expanded(s: Seq<char>, env: Env, n: nat) -> Option<Seq<char>>
    decreases n,
{
    match expand_step(s, env) {
        None => Some(s),
        Some(t) => if n == 0 {
            None
        } else {
            expanded(t, env, (n - 1) as nat)
        },
    }
}

/// More steps than needed change nothing.
pub proof fn law_expansion_is_settled(s: Seq<char>, env: Env, n: nat, m: nat)
    requires
        expanded(s, env, n) is Some,
        n <= m,
    ensures
        expanded(s, env, m) == expanded(s, env, n),
    decreases n,
{
    match expand_step(s, env) {
        None => {},
        Some(t) => {
            law_expansion_is_settled(t, env, (n - 1) as nat, (m - 1) as nat);
        },
    }
}

/// How many `%` a text holds.
pub open spec fn percents(s: Seq<char>) -> nat
    decreases s.len(),
{
    if s.len() == 0 {
        0
    } else {
        percents(s.drop_last()) + if s.last() == '%' {
            1nat
        } else {
            0
        }
    }
}

proof fn lemma_percents_add(a: Seq<char>, b: Seq<char>)
    ensures
        percents(a + b) == percents(a) + percents(b),
    decreases b.len(),
{
    if b.len() == 0 {
        assert(a + b =~= a);
    } else {
        assert((a + b).drop_last() =~= a + b.drop_last());
        lemma_percents_add(a, b.drop_last());
    }
}

proof fn lemma_no_percents(s: Seq<char>)
    requires
        !s.contains('%'),
    ensures
        percents(s) == 0,
    decreases s.len(),
{
    if s.len() > 0 {
        assert(s.contains(s.last()));
        assert forall|c: char| s.drop_last().contains(c) implies s.contains(c) by {
            let i = choose|i: int| 0 <= i < s.len() - 1 && s.drop_last()[i] == c;
            assert(s[i] == c);
        }
        lemma_no_percents(s.drop_last());
    }
}

proof fn lemma_plain_value(vars: Seq<(String, String)>, name: Seq<char>)
    requires
        forall|i: int| 0 <= i < vars.len() ==> !(#[trigger] vars[i]).1@.contains('%'),
        value_of(vars, name) is Some,
    ensures
        !(value_of(vars, name)->0).contains('%'),
    decreases vars.len(),
{
    if lowercase(vars[0].0@) != lowercase(name) {
        assert forall|i: int| 0 <= i < vars.len() - 1 implies !(
        #[trigger] vars.drop_first()[i]).1@.contains('%') by {
            assert(vars.drop_first()[i] == vars[i + 1]);
        }
        lemma_plain_value(vars.drop_first(), name);
    }
}

proof fn lemma_step_shrinks(s: Seq<char>, env: Env)
    requires
        env.plain(),
        expand_step(s, env) is Some,
    ensures
        percents(expand_step(s, env)->0) < percents(s),
{
    let p = seq!['%'];
    let a = find_text(s, p, 0);
    lemma_find_text(s, p, 0);
    let b = find_text(s, p, a + 1);
    lemma_find_text(s, p, a + 1);
    assert(s.subrange(a, a + 1)[0] == s[a]);
    assert(s.subrange(b, b + 1)[0] == s[b]);
    let name = s.subrange(a + 1, b);
    let one = s.subrange(a, a + 1);
    assert(percents(one) == 1) by {
        assert(one.drop_last() =~= Seq::<char>::empty());
        assert(percents(one.drop_last()) == 0);
    }
    assert(s =~= (s.take(a) + one) + s.skip(a + 1));
    lemma_percents_add(s.take(a) + one, s.skip(a + 1));
    lemma_percents_add(s.take(a), one);
    lemma_percents_add(s.take(a), s.skip(a + 1));
    if name.len() > 0 && env.get(name) is Some {
        let v = env.get(name)->0;
        lemma_plain_value(env.vars@, name);
        lemma_no_percents(v);
        assert(s.skip(a + 1) =~= s.subrange(a + 1, b + 1) + s.skip(b + 1));
        lemma_percents_add(s.subrange(a + 1, b + 1), s.skip(b + 1));
        lemma_percents_add(s.take(a) + v, s.skip(b + 1));
        lemma_percents_add(s.take(a), v);
    }
}

/// Where no value holds a `%`, each text is expanded in at most as many steps
/// as it holds `%`.
pub proof fn law_plain_values_expand(s: Seq<char>, env: Env)
    requires
        env.plain(),
    ensures
        expanded(s, env, percents(s)) is Some,
    decreases percents(s),
{
    match expand_step(s, env) {
        None => {},
        Some(t) => {
            lemma_step_shrinks(s, env);
            law_plain_values_expand(t, env);
            law_expansion_is_settled(t, env, percents(t), (percents(s) - 1) as nat);
        },
    }
}

/// One step of the expansion.
fn step(s: &str, env: &Env) -> (r: Option<String>)
    ensures
        r is Some <==> expand_step(s@, *env) is Some,
        r is Some ==> r->0@ == expand_step(s@, *env)->0,
{
    let c = chars_of(s);
    let p: Vec<char> = vec!['%'];
    assert(p@ =~= seq!['%']);
    let a = match find_chars(c.as_slice(), p.as_slice(), 0) {
        Some(a) => a,
        None => {
            return None;
        },
    };
    let b = match find_chars(c.as_slice(), p.as_slice(), a + 1) {
        Some(b) => b,
        None => {
            return None;
        },
    };
    let name = string_of(&c.as_slice()[a + 1..b]);
    let head = string_of(&c.as_slice()[0..a]);
    assert(head@ =~= s@.take(a as int));
    let mut out = head;
    let value = env.var(name.as_str());
    if name.as_str().is_empty() || value.is_none() {
        let tail = string_of(&c.as_slice()[a + 1..c.len()]);
        out.push_str(tail.as_str());
        assert(tail@ =~= s@.skip(a + 1));
        return Some(out);
    }
    match value {
        Some(v) => {
            out.push_str(v.as_str());
        },
        None => {},
    }
    let tail = string_of(&c.as_slice()[b + 1..c.len()]);
    assert(tail@ =~= s@.skip(b + 1));
    out.push_str(tail.as_str());
    Some(out)
}

/// Expands the `%NAME%` of a text, such as `%ProgramFiles%`. A name without a
/// value loses its first `%`. The texts whose expansion has no end are left
/// out.
pub fn expand_env_vars(s: &str, env: &Env) -> (r: String)
    requires
        exists|n: nat| expanded(s@, *env, n) is Some,
    ensures
        forall|n: nat|
            (#[trigger] expanded(s@, *env, n)) is Some ==> expanded(s@, *env, n) == Some(r@),
{
    let ghost n = choose|n: nat| expanded(s@, *env, n) is Some;
    let mut out = s.to_owned();
    let mut done = false;
    let ghost mut left: nat = n;
    while !done
        invariant
            expanded(s@, *env, n) is Some,
            expanded(out@, *env, left) == expanded(s@, *env, n),
            done ==> expanded(s@, *env, n) == Some(out@),
        decreases left + (if done { 0int } else { 1int }),
    {
        match step(out.as_str(), env) {
            None => {
                done = true;
            },
            Some(t) => {
                out = t;
                proof {
                    left = (left - 1) as nat;
                }
            },
        }
    }
    proof {
        assert forall|m: nat| (#[trigger] expanded(s@, *env, m)) is Some implies expanded(
            s@,
            *env,
            m,
        ) == Some(out@) by {
            if m <= n {
                law_expansion_is_settled(s@, *env, m, n);
            } else {
                law_expansion_is_settled(s@, *env, n, m);
            }
        }
    }
    out
}

/// How many steps an expansion may take beyond the length of the text.
pub const EXPAND_LIMIT: usize = 10_000;

/// How many steps the expansion of a text may take.
pub open spec fn steps_for(s: Seq<char>) -> nat {
    s.len() + EXPAND_LIMIT as nat
}

proof fn lemma_percents_bound(s: Seq<char>)
    ensures
        percents(s) <= s.len(),
    decreases s.len(),
{
    if s.len() > 0 {
        lemma_percents_bound(s.drop_last());
    }
}

/// Where no value holds a `%`, the steps that an expansion may take are enough
/// for each text.
pub proof fn law_steps_are_enough(s: Seq<char>, env: Env)
    requires
        env.plain(),
    ensures
        expanded(s, env, steps_for(s)) is Some,
{
    lemma_percents_bound(s);
    law_plain_values_expand(s, env);
    law_expansion_is_settled(s, env, percents(s), steps_for(s));
}

/// Expands the `%NAME%` of a text, such as `%ProgramFiles%`. `None` where that
/// takes more steps than `steps_for` says: a value that names itself, for one,
/// has no end.
pub fn expand_env(s: &str, env: &Env) -> (r: Option<String>)
    ensures
        r is Some <==> expanded(s@, *env, steps_for(s@)) is Some,
        r is Some ==> Some(r->0@) == expanded(s@, *env, steps_for(s@)),
{
    let mut out = s.to_owned();
    let mut left: u128 = chars_of(s).len() as u128 + EXPAND_LIMIT as u128;
    let ghost limit = steps_for(s@);
    while left > 0
        invariant
            left <= limit,
            expanded(out@, *env, left as nat) == expanded(s@, *env, limit),
            limit == steps_for(s@),
        decreases left,
    {
        match step(out.as_str(), env) {
            None => {
                return Some(out);
            },
            Some(t) => {
                out = t;
            },
        }
        left = left - 1;
    }
    match step(out.as_str(), env) {
        None => Some(out),
        Some(_) => None,
    }
}

/// The value of a variable is that of the first one with the name, whatever its
/// case.
pub proof fn law_first_variable_counts(env: Env, name: Seq<char>, i: int)
    requires
        0 <= i < env.vars@.len(),
        lowercase(env.vars@[i].0@) == lowercase(name),
        forall|k: int| 0 <= k < i ==> lowercase((#[trigger] env.vars@[k]).0@) != lowercase(name),
    ensures
        env.get(name) == Some(env.vars@[i].1@),
{
    lemma_value_at(env.vars@, name, i);
}

proof fn lemma_value_at(vars: Seq<(String, String)>, name: Seq<char>, i: int)
    requires
        0 <= i < vars.len(),
        lowercase(vars[i].0@) == lowercase(name),
        forall|k: int| 0 <= k < i ==> lowercase((#[trigger] vars[k]).0@) != lowercase(name),
    ensures
        value_of(vars, name) == Some(vars[i].1@),
    decreases i,
{
    if i > 0 {
        assert(lowercase(vars[0].0@) != lowercase(name));
        let rest = vars.drop_first();
        assert forall|k: int| 0 <= k < i - 1 implies lowercase((#[trigger] rest[k]).0@)
            != lowercase(name) by {
            assert(rest[k] == vars[k + 1]);
        }
        lemma_value_at(rest, name, i - 1);
    }
}

/// The first name between two `%` is replaced by its value; without a value, or
/// without a name, the first `%` goes. A text with fewer than two `%` stays.
pub proof fn law_names_between_percents_are_replaced(
    a: Seq<char>,
    name: Seq<char>,
    b: Seq<char>,
    env: Env,
)
    requires
        forall|k: int| 0 <= k < a.len() ==> #[trigger] a[k] != '%',
        forall|k: int| 0 <= k < name.len() ==> #[trigger] name[k] != '%',
    ensures
        name.len() > 0 && env.get(name) is Some ==> expand_step(
            a.push('%') + name.push('%') + b,
            env,
        ) == Some(a + env.get(name)->0 + b),
        name.len() == 0 || env.get(name) is None ==> expand_step(
            a.push('%') + name.push('%') + b,
            env,
        ) == Some(a + name.push('%') + b),
        expand_step(a, env) is None,
        expand_step(a.push('%') + name, env) is None,
        forall|n: nat| #[trigger] expanded(a, env, n) == Some(a),
{
    let q = seq!['%'];
    let s = a.push('%') + name.push('%') + b;
    let n: int = a.len() as int;
    let m: int = n + 1 + name.len();
    lemma_find_percent(s, 0, n);
    lemma_find_percent(s, n + 1, m);
    assert(s.subrange(n + 1, m) =~= name);
    assert(s.take(n) =~= a);
    assert(s.skip(m + 1) =~= b);
    assert(s.skip(n + 1) =~= name.push('%') + b);
    assert(a + env.get(name)->0 + b =~= s.take(n) + env.get(name)->0 + s.skip(m + 1));
    assert(s.take(n) + s.skip(n + 1) =~= a + name.push('%') + b);
    lemma_no_percent(a, 0);
    let t = a.push('%') + name;
    lemma_find_percent(t, 0, n);
    lemma_no_percent(t, n + 1);
}

proof fn lemma_find_percent(s: Seq<char>, from: int, at: int)
    requires
        0 <= from <= at < s.len(),
        s[at] == '%',
        forall|k: int| from <= k < at ==> #[trigger] s[k] != '%',
    ensures
        find_text(s, seq!['%'], from) == at,
    decreases at - from,
{
    let q = seq!['%'];
    if from < at {
        assert(s[from] != '%');
        assert(s.subrange(from, from + 1)[0] == s[from]);
        lemma_find_percent(s, from + 1, at);
    } else {
        assert(s.subrange(at, at + 1) =~= q);
    }
}

proof fn lemma_no_percent(s: Seq<char>, from: int)
    requires
        0 <= from <= s.len(),
        forall|k: int| from <= k < s.len() ==> #[trigger] s[k] != '%',
    ensures
        find_text(s, seq!['%'], from) == -1,
    decreases s.len() - from,
{
    if from < s.len() {
        assert(s[from] != '%');
        assert(s.subrange(from, from + 1)[0] == s[from]);
        lemma_no_percent(s, from + 1);
    }
}

} // verus!
