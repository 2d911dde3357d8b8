//! Path mode: a query that names a place on the disk.
use crate::env::Env;
use crate::text::{
    ascii_lower, chars_of, is_space, parts, str_ascii_lower, str_eq, str_parts, str_starts,
    str_trim, string_of, text_starts, texts, trimmed, trimmed_end, trimmed_start,
};
use crate::text_laws::law_separator_parts_a_text;
use crate::winpath::{find_sep, next_sep, parent, path_parent};
use vstd::prelude::*;

verus! {

/// A text without the backslashes, and with `slash` the slashes, at its end.
pub open spec fn without_seps(s: Seq<char>, slash: bool) -> Seq<char>
    decreases s.len(),
{
    if s.len() > 0 && (s.last() == '\\' || (slash && s.last() == '/')) {
        without_seps(s.drop_last(), slash)
    } else {
        s
    }
}

/// A text without the backslashes, and with `slash` the slashes, at its end.
pub fn trim_seps(text: &str, slash: bool) -> (r: String)
    ensures
        r@ == without_seps(text@, slash),
{
    let s = chars_of(text);
    let mut end: usize = s.len();
    assert(s@.take(end as int) =~= s@);
    while end > 0 && (s[end - 1] == '\\' || (slash && s[end - 1] == '/'))
        invariant
            end <= s.len(),
            without_seps(s@.take(end as int), slash) == without_seps(s@, slash),
        decreases end,
    {
        assert(s@.take(end as int).last() == s@[end - 1]);
        assert(s@.take(end as int).drop_last() =~= s@.take(end - 1));
        end = end - 1;
    }
    proof {
        if end > 0 {
            assert(s@.take(end as int).last() == s@[end - 1]);
        }
        assert(s@.subrange(0, end as int) =~= s@.take(end as int));
    }
    string_of(&s.as_slice()[0..end])
}

/// A query without the quotes around it and the separators at its end.
pub open spec fn bare_query(raw: Seq<char>) -> Seq<char> {
    let t = trimmed(raw);
    let a = if t.len() > 0 && t[0] == '"' {
        t.drop_first()
    } else {
        t
    };
    let b = if a.len() > 0 && a.last() == '"' {
        a.drop_last()
    } else {
        a
    };
    without_seps(b, true)
}

/// A query without the quotes around it and the separators at its end.
fn bare(raw: &str) -> (r: String)
    ensures
        r@ == bare_query(raw@),
{
    let t = str_trim(raw);
    let c = chars_of(t.as_str());
    let lo: usize = if c.len() > 0 && c[0] == '"' {
        1
    } else {
        0
    };
    let hi: usize = if c.len() > lo && c[c.len() - 1] == '"' {
        c.len() - 1
    } else {
        c.len()
    };
    proof {
        if lo == 1 {
            assert(c@.subrange(1, c@.len() as int) =~= c@.drop_first());
            if hi < c@.len() {
                assert(c@.subrange(1, hi as int) =~= c@.drop_first().drop_last());
            }
        } else {
            assert(c@.subrange(0, c@.len() as int) =~= c@);
            if hi < c@.len() {
                assert(c@.subrange(0, hi as int) =~= c@.drop_last());
            }
        }
    }
    trim_seps(string_of(&c.as_slice()[lo..hi]).as_str(), true)
}

/// A folder and what stands below it.
pub open spec fn below(base: Seq<char>, rest: Seq<char>) -> Seq<char> {
    without_seps(base, false).push('\\') + rest
}

/// A folder and what stands below it.
fn join_below(base: &str, rest: &str) -> (r: String)
    ensures
        r@ == below(base@, rest@),
{
    let mut out = trim_seps(base, false);
    out.push('\\');
    out.push_str(rest);
    out
}

/// The value of a variable that is named in a text.
pub open spec fn named_value(name: Seq<char>, env: Env) -> Option<Seq<char>> {
    if name.len() == 0 {
        None
    } else {
        env.get(name)
    }
}

/// The first `n` parts that `%` separates, each second one replaced by the
/// value of the variable it names. `None` where one has no value.
pub open spec fn filled_in(segs: Seq<Seq<char>>, env: Env, n: int) -> Option<Seq<char>>
    decreases n,
{
    if n <= 0 {
        Some(Seq::empty())
    } else {
        match filled_in(segs, env, n - 1) {
            None => None,
            Some(head) => if (n - 1) % 2 == 1 {
                match named_value(segs[n - 1], env) {
                    None => None,
                    Some(v) => Some(head + v),
                }
            } else {
                Some(head + segs[n - 1])
            },
        }
    }
}

/// A text with the `%NAME%` in it replaced. `None` where a name has no value,
/// and where nothing is left.
pub open spec fn tokens_expanded(s: Seq<char>, env: Env) -> Option<Seq<char>> {
    let segs = parts(s, '%');
    match filled_in(segs, env, segs.len() as int) {
        Some(t) => if t.len() == 0 {
            None
        } else {
            Some(t)
        },
        None => None,
    }
}

/// A text with the `%NAME%` in it replaced.
fn expand_tokens(s: &str, env: &Env) -> (r: Option<String>)
    ensures
        r is Some <==> tokens_expanded(s@, *env) is Some,
        r is Some ==> r->0@ == tokens_expanded(s@, *env)->0,
{
    let segs = str_parts(s, '%');
    let ghost all = parts(s@, '%');
    let mut out = String::new();
    let mut n: usize = 0;
    assert(out@ =~= Seq::<char>::empty());
    while n < segs.len()
        invariant
            n <= segs.len(),
            texts(segs@) == all,
            all == parts(s@, '%'),
            all.len() == segs.len(),
            filled_in(all, *env, n as int) == Some(out@),
        decreases segs.len() - n,
    {
        assert(all[n as int] == segs@[n as int]@);
        if n % 2 == 1 {
            let value = if segs[n].as_str().is_empty() {
                None
            } else {
                env.var(segs[n].as_str())
            };
            match value {
                Some(v) => {
                    out.push_str(v.as_str());
                },
                None => {
                    proof {
                        assert(filled_in(all, *env, n + 1) is None);
                        lemma_filled_in(all, *env, n + 1, all.len() as int);
                    }
                    return None;
                },
            }
        } else {
            out.push_str(segs[n].as_str());
        }
        n = n + 1;
    }
    if out.as_str().is_empty() {
        None
    } else {
        Some(out)
    }
}

proof fn lemma_filled_in(segs: Seq<Seq<char>>, env: Env, n: int, m: int)
    requires
        0 <= n <= m,
        filled_in(segs, env, n) is None,
    ensures
        filled_in(segs, env, m) is None,
    decreases m,
{
    if n < m {
        lemma_filled_in(segs, env, n, m - 1);
    }
}

/// The folder that a known first word of a path stands for.
pub open spec fn alias_folder(word: Seq<char>, env: Env) -> Option<Seq<char>> {
    let low = ascii_lower(word);
    if low == "appdata"@ {
        env.get("APPDATA"@)
    } else if low == "localappdata"@ {
        env.get("LOCALAPPDATA"@)
    } else if low == "temp"@ {
        env.get("TEMP"@)
    } else if low == "userprofile"@ {
        env.get("USERPROFILE"@)
    } else if low == "programfiles"@ || low == "program files"@ {
        env.get("ProgramFiles"@)
    } else if low == "programfilesx86"@ || low == "program files (x86)"@ {
        env.get("ProgramFiles(x86)"@)
    } else if low == "windows"@ {
        env.get("SystemRoot"@)
    } else if low == "system32"@ {
        match env.get("SystemRoot"@) {
            Some(r) => Some(without_seps(r, false) + "\\System32"@),
            None => None,
        }
    } else {
        None
    }
}

/// The folder that a known first word of a path stands for.
fn alias(word: &str, env: &Env) -> (r: Option<String>)
    ensures
        r is Some <==> alias_folder(word@, *env) is Some,
        r is Some ==> r->0@ == alias_folder(word@, *env)->0,
{
    let l = str_ascii_lower(word);
    let low = l.as_str();
    if str_eq(low, "appdata") {
        env.var("APPDATA")
    } else if str_eq(low, "localappdata") {
        env.var("LOCALAPPDATA")
    } else if str_eq(low, "temp") {
        env.var("TEMP")
    } else if str_eq(low, "userprofile") {
        env.var("USERPROFILE")
    } else if str_eq(low, "programfiles") || str_eq(low, "program files") {
        env.var("ProgramFiles")
    } else if str_eq(low, "programfilesx86") || str_eq(low, "program files (x86)") {
        env.var("ProgramFiles(x86)")
    } else if str_eq(low, "windows") {
        env.var("SystemRoot")
    } else if str_eq(low, "system32") {
        match env.var("SystemRoot") {
            Some(r) => {
                let mut out = trim_seps(r.as_str(), false);
                out.push_str("\\System32");
                Some(out)
            },
            None => None,
        }
    } else {
        None
    }
}

/// A relative path with a separator: below the known folder of its first word,
/// else below the user's profile, or beside it where the first word is the
/// user's name.
pub open spec fn relative_place(q: Seq<char>, env: Env) -> Option<Seq<char>> {
    let at = next_sep(q, 0);
    let first = q.take(at);
    if at >= q.len() {
        None
    } else if alias_folder(first, env) is Some {
        Some(below(alias_folder(first, env)->0, q.skip(at + 1)))
    } else {
        match env.get("USERPROFILE"@) {
            None => None,
            Some(profile) => match parent(profile) {
                None => None,
                Some(users) => {
                    let base = if ascii_lower(first) == ascii_lower(env.or("USERNAME"@, ""@)) {
                        users
                    } else {
                        without_seps(profile, false)
                    };
                    Some(base.push('\\') + q)
                },
            },
        }
    }
}

/// The place that a bare query names.
pub open spec fn place_of(q: Seq<char>, env: Env) -> Option<Seq<char>> {
    if q.len() == 0 {
        None
    } else if q == "~"@ {
        env.get("USERPROFILE"@)
    } else if text_starts(q, "~/"@) || text_starts(q, "~\\"@) {
        match env.get("USERPROFILE"@) {
            Some(home) => Some(below(home, q.skip(2))),
            None => None,
        }
    } else if q.contains('%') {
        tokens_expanded(q, env)
    } else if q.len() >= 2 && (q[0] as u32) < 0x80 && q[1] == ':' {
        Some(q)
    } else if text_starts(q, "\\\\"@) {
        Some(q)
    } else if q[0] == '\\' {
        match env.get("SystemRoot"@) {
            Some(root) => Some(root.take(if root.len() < 2 {
                root.len() as int
            } else {
                2
            }) + q),
            None => None,
        }
    } else {
        relative_place(q, env)
    }
}

/// Whether a character stands in a text.
fn has_char(s: &[char], c: char) -> (r: bool)
    ensures
        r == s@.contains(c),
{
    let mut i: usize = 0;
    while i < s.len()
        invariant
            i <= s@.len(),
            forall|k: int| 0 <= k < i ==> s@[k] != c,
        decreases s@.len() - i,
    {
        if s[i] == c {
            return true;
        }
        i = i + 1;
    }
    false
}

/// The place that a relative path names.
fn relative(q: &str, env: &Env) -> (r: Option<String>)
    ensures
        r is Some <==> relative_place(q@, *env) is Some,
        r is Some ==> r->0@ == relative_place(q@, *env)->0,
{
    let c = chars_of(q);
    let at = find_sep(c.as_slice(), 0);
    if at >= c.len() {
        return None;
    }
    let first = string_of(&c.as_slice()[0..at]);
    assert(first@ =~= q@.take(at as int));
    match alias(first.as_str(), env) {
        Some(base) => {
            let rest = string_of(&c.as_slice()[at + 1..c.len()]);
            assert(rest@ =~= q@.skip(at + 1));
            return Some(join_below(base.as_str(), rest.as_str()));
        },
        None => {},
    }
    match env.var("USERPROFILE") {
        None => None,
        Some(profile) => match path_parent(profile.as_str()) {
            None => None,
            Some(users) => {
                let user = env.var_or("USERNAME", "");
                let mut out = if str_eq(
                    str_ascii_lower(first.as_str()).as_str(),
                    str_ascii_lower(user.as_str()).as_str(),
                ) {
                    users
                } else {
                    trim_seps(profile.as_str(), false)
                };
                out.push('\\');
                out.push_str(q);
                Some(out)
            },
        },
    }
}

/// The place on the disk that a query names: `~`, `%NAME%` anywhere, a drive,
/// a share, a path from the root, a known folder, or a path below the profile.
/// `None` where the query names none.
pub fn expand_path_query(raw: &str, env: &Env) -> (r: Option<String>)
    ensures
        r is Some <==> place_of(bare_query(raw@), *env) is Some,
        r is Some ==> r->0@ == place_of(bare_query(raw@), *env)->0,
{
    let b = bare(raw);
    let q = b.as_str();
    if q.is_empty() {
        return None;
    }
    if str_eq(q, "~") {
        return env.var("USERPROFILE");
    }
    let c = chars_of(q);
    if str_starts(q, "~/") || str_starts(q, "~\\") {
        proof {
            reveal_strlit("~/");
            reveal_strlit("~\\");
        }
        let rest = string_of(&c.as_slice()[2..c.len()]);
        assert(rest@ =~= q@.skip(2));
        return match env.var("USERPROFILE") {
            Some(home) => Some(join_below(home.as_str(), rest.as_str())),
            None => None,
        };
    }
    if has_char(c.as_slice(), '%') {
        return expand_tokens(q, env);
    }
    if c.len() >= 2 && (c[0] as u32) < 0x80 && c[1] == ':' {
        return Some(q.to_owned());
    }
    if str_starts(q, "\\\\") {
        return Some(q.to_owned());
    }
    if c[0] == '\\' {
        return match env.var("SystemRoot") {
            Some(root) => {
                let rc = chars_of(root.as_str());
                let n: usize = if rc.len() < 2 {
                    rc.len()
                } else {
                    2
                };
                let mut out = string_of(&rc.as_slice()[0..n]);
                assert(out@ =~= root@.take(n as int));
                out.push_str(q);
                Some(out)
            },
            None => None,
        };
    }
    relative(q, env)
}

/// A query without the quotes around it and the separators at its end is what is
/// left between them.
pub proof fn law_quotes_and_last_separators_do_not_count(s: Seq<char>)
    requires
        s.len() > 0,
        !is_space(s[0]),
        !is_space(s.last()),
        s[0] != '"',
        s.last() != '"',
        s.last() != '\\',
        s.last() != '/',
    ensures
        bare_query(s) == s,
        bare_query(s.push('\\')) == s,
        bare_query(s.push('/')) == s,
        bare_query(seq!['"'] + s + seq!['"']) == s,
        bare_query(seq!['"'] + s.push('\\') + seq!['"']) == s,
        bare_query(seq![' '] + s) == s,
{
    reveal_with_fuel(without_seps, 3);
    reveal_with_fuel(trimmed_start, 3);
    reveal_with_fuel(trimmed_end, 3);
    let b = s.push('\\');
    assert(b.drop_last() =~= s);
    let f = s.push('/');
    assert(f.drop_last() =~= s);
    let q = seq!['"'] + s + seq!['"'];
    assert(q.drop_first().drop_last() =~= s);
    assert(q.drop_first().last() == '"');
    let r = seq!['"'] + b + seq!['"'];
    assert(r.drop_first().drop_last() =~= b);
    assert(r.drop_first().last() == '"');
    let t = seq![' '] + s;
    assert(t.drop_first() =~= s);
}

/// Where a query leads: `~` to the user's folder and what is behind it below that,
/// a path with a drive or a share to itself, and a path from the root to the
/// drive of the system.
pub proof fn law_where_a_query_leads(q: Seq<char>, rest: Seq<char>, env: Env)
    ensures
        q.len() >= 2 && (q[0] as u32) < 0x80 && q[1] == ':' && q[0] != '~' && !q.contains('%')
            ==> place_of(q, env) == Some(q),
        q.len() >= 2 && q[0] == '\\' && q[1] == '\\' && !q.contains('%') ==> place_of(q, env)
            == Some(q),
        place_of("~"@, env) == env.get("USERPROFILE"@),
        env.get("USERPROFILE"@) is Some ==> place_of("~\\"@ + rest, env) == Some(
            below(env.get("USERPROFILE"@)->0, rest),
        ),
        env.get("USERPROFILE"@) is Some ==> place_of("~/"@ + rest, env) == Some(
            below(env.get("USERPROFILE"@)->0, rest),
        ),
        q.len() >= 2 && q[0] == '\\' && q[1] != '\\' && q[1] != ':' && !q.contains('%')
            && env.get("SystemRoot"@) is Some && env.get("SystemRoot"@)->0.len() >= 2 ==> place_of(
            q,
            env,
        ) == Some(env.get("SystemRoot"@)->0.take(2) + q),
{
    reveal_strlit("~");
    reveal_strlit("~/");
    reveal_strlit("~\\");
    reveal_strlit("\\\\");
    let back = "~\\"@ + rest;
    let slash = "~/"@ + rest;
    assert(back.subrange(0, 2) =~= "~\\"@);
    assert(back.skip(2) =~= rest);
    assert(slash.subrange(0, 2) =~= "~/"@);
    assert(slash.skip(2) =~= rest);
    if text_starts(q, "~/"@) {
        assert(q.subrange(0, 2)[0] == q[0]);
    }
    if text_starts(q, "~\\"@) {
        assert(q.subrange(0, 2)[0] == q[0]);
    }
    if q.len() >= 2 && q[0] == '\\' && q[1] == '\\' {
        assert(q.subrange(0, 2) =~= "\\\\"@);
    }
    if text_starts(q, "\\\\"@) {
        assert(q.subrange(0, 2)[1] == q[1]);
    }
}

/// A folder and what stands below it are joined by one backslash.
pub proof fn law_one_backslash_joins(base: Seq<char>, rest: Seq<char>)
    ensures
        base.len() == 0 || base.last() != '\\' ==> below(base, rest) == base + seq!['\\'] + rest,
        below(base.push('\\'), rest) == below(base, rest),
{
    let b = base.push('\\');
    assert(b.drop_last() =~= base);
    assert(base.push('\\') =~= base + seq!['\\']);
}

/// A name between two `%` is replaced by its value, and what has no value leads
/// nowhere.
pub proof fn law_variables_in_a_query(
    a: Seq<char>,
    name: Seq<char>,
    b: Seq<char>,
    env: Env,
)
    requires
        name.len() > 0,
        forall|k: int| 0 <= k < a.len() ==> #[trigger] a[k] != '%',
        forall|k: int| 0 <= k < name.len() ==> #[trigger] name[k] != '%',
        forall|k: int| 0 <= k < b.len() ==> #[trigger] b[k] != '%',
    ensures
        ({
            let s = a.push('%') + (name.push('%') + b);
            let whole = a + env.get(name)->0 + b;
            tokens_expanded(s, env) == if env.get(name) is Some && whole.len() > 0 {
                Some(whole)
            } else {
                None
            }
        }),
{
    let s = a.push('%') + (name.push('%') + b);
    law_separator_parts_a_text(a, '%', name.push('%') + b);
    law_separator_parts_a_text(name, '%', b);
    law_separator_parts_a_text(b, '%', b);
    let segs = parts(s, '%');
    assert(segs =~= seq![a, name, b]);
    reveal_with_fuel(filled_in, 4);
    assert(filled_in(segs, env, 1) == Some(Seq::empty() + a));
    assert(Seq::empty() + a =~= a);
}

/// A relative path begins with a known folder where its first name stands for one.
/// Otherwise it is taken from the user's folder, or from the folder above that
/// where it begins with the user's name.
pub proof fn law_relative_paths(first: Seq<char>, rest: Seq<char>, env: Env)
    requires
        forall|k: int|
            0 <= k < first.len() ==> #[trigger] first[k] != '\\' && first[k] != '/',
    ensures
        ({
            let q = first.push('\\') + rest;
            let place = relative_place(q, env);
            let folder = alias_folder(first, env);
            let home = env.get("USERPROFILE"@);
            &&& folder is Some ==> place == Some(below(folder->0, rest))
            &&& folder is None && home is Some && parent(home->0) is Some ==> if ascii_lower(first)
                == ascii_lower(env.or("USERNAME"@, ""@)) {
                place == Some(parent(home->0)->0.push('\\') + q)
            } else {
                place == Some(without_seps(home->0, false).push('\\') + q)
            }
            &&& folder is None && home is None ==> place is None
        }),
        relative_place(first, env) is None,
        ascii_lower(first) == "appdata"@ ==> alias_folder(first, env) == env.get("APPDATA"@),
        ascii_lower(first) == "localappdata"@ ==> alias_folder(first, env) == env.get(
            "LOCALAPPDATA"@,
        ),
        ascii_lower(first) == "temp"@ ==> alias_folder(first, env) == env.get("TEMP"@),
        ascii_lower(first) == "windows"@ ==> alias_folder(first, env) == env.get("SystemRoot"@),
{
    let q = first.push('\\') + rest;
    let n: int = first.len() as int;
    lemma_first_sep(q, 0, n);
    assert(q.take(n) =~= first);
    assert(q.skip(n + 1) =~= rest);
    lemma_first_sep(first, 0, n);
    reveal_strlit("appdata");
    reveal_strlit("localappdata");
    reveal_strlit("temp");
    reveal_strlit("userprofile");
    reveal_strlit("programfiles");
    reveal_strlit("program files");
    reveal_strlit("programfilesx86");
    reveal_strlit("program files (x86)");
    reveal_strlit("windows");
    assert("appdata"@[0] == 'a' && "localappdata"@[0] == 'l' && "temp"@[0] == 't');
    assert("userprofile"@[0] == 'u' && "programfiles"@[0] == 'p' && "windows"@[0] == 'w');
    assert("program files"@[0] == 'p' && "programfilesx86"@[0] == 'p');
    assert("program files (x86)"@[0] == 'p');
}

proof fn lemma_first_sep(p: Seq<char>, from: int, at: int)
    requires
        0 <= from <= at <= p.len(),
        at < p.len() ==> p[at] == '\\' || p[at] == '/',
        forall|k: int| from <= k < at ==> #[trigger] p[k] != '\\' && p[k] != '/',
    ensures
        next_sep(p, from) == at,
    decreases at - from,
{
    if from < at {
        assert(p[from] != '\\' && p[from] != '/');
        lemma_first_sep(p, from + 1, at);
    }
}

} // verus!
