//! Windows paths as text: the prefix, the last component, its stem and
//! extension, the parent, and a path behind another.
//!
//! Both `\` and `/` separate components. A path begins with a drive (`C:`), a
//! share (`\\server\share`), a device (`\\.\COM1`) or none of these. In a path that
//! begins with `\\?\` only `\` separates, and `.` is a component like any other.
use crate::text::{chars_of, is_ascii_letter, ascii_letter, string_of};
use vstd::prelude::*;

verus! {

/// A path separator.
pub open spec fn is_sep(c: char) -> bool {
    c == '\\' || c == '/'
}

/// Whether a character separates components.
pub fn sep(c: char) -> (r: bool)
    ensures
        r == is_sep(c),
{
    c == '\\' || c == '/'
}

/// The first separator at or after `from`, or the end.
pub open spec fn next_sep(p: Seq<char>, from: int) -> int
    decreases p.len() - from,
{
    if from < 0 || from >= p.len() {
        p.len() as int
    } else if is_sep(p[from]) {
        from
    } else {
        next_sep(p, from + 1)
    }
}

/// The first `\\` at or after `from`, or the end.
pub open spec fn next_backslash(p: Seq<char>, from: int) -> int
    decreases p.len() - from,
{
    if from < 0 || from >= p.len() {
        p.len() as int
    } else if p[from] == '\\' {
        from
    } else {
        next_backslash(p, from + 1)
    }
}

/// A path that begins with `\\?\`. In it only `\` separates components, and `.` is
/// one.
pub open spec fn is_verbatim(p: Seq<char>) -> bool {
    p.len() >= 4 && p[0] == '\\' && p[1] == '\\' && p[2] == '?' && p[3] == '\\'
}

/// A drive stands at `at`.
pub open spec fn drive_at(p: Seq<char>, at: int) -> bool {
    p.len() >= at + 2 && is_ascii_letter(p[at]) && p[at + 1] == ':'
}

/// How many characters the prefix takes: the drive, the share, the device, or
/// what follows `\\?\`.
pub open spec fn prefix_len(p: Seq<char>) -> int {
    if is_verbatim(p) {
        if p.len() >= 8 && p[4] == 'U' && p[5] == 'N' && p[6] == 'C' && is_sep(p[7]) {
            let server = next_backslash(p, 8);
            let share = next_backslash(p, server + 1);
            if share > server + 1 {
                share
            } else {
                server
            }
        } else if drive_at(p, 4) && (p.len() == 6 || is_sep(p[6])) {
            6
        } else {
            next_backslash(p, 4)
        }
    } else if p.len() >= 4 && is_sep(p[0]) && is_sep(p[1]) && p[2] == '.' && is_sep(p[3]) {
        next_sep(p, 4)
    } else if p.len() >= 2 && is_sep(p[0]) && is_sep(p[1]) {
        let server = next_sep(p, 2);
        let share = next_sep(p, server + 1);
        if server > 2 && share > server + 1 {
            share
        } else {
            0
        }
    } else if drive_at(p, 0) {
        2
    } else {
        0
    }
}

/// A character that separates the components of a path.
pub open spec fn parts_at(c: char, verbatim: bool) -> bool {
    c == '\\' || (c == '/' && !verbatim)
}

/// How many characters stand before the components: the prefix, the separator of
/// the root, and a `.` that the path begins with.
pub open spec fn start_len(p: Seq<char>) -> int {
    let pre = prefix_len(p);
    if pre < p.len() && parts_at(p[pre], is_verbatim(p)) {
        pre + 1
    } else if begins_with_dot(p) {
        pre + 1
    } else {
        pre
    }
}

/// A path without root that begins with the component `.`.
pub open spec fn begins_with_dot(p: Seq<char>) -> bool {
    let pre = prefix_len(p);
    (pre == 0 || drive_at(p, 0)) && pre < p.len() && p[pre] == '.' && (p.len() == pre + 1 || is_sep(
        p[pre + 1],
    ))
}

/// A path without the separators and the `.` components at its end.
pub open spec fn without_tail(s: Seq<char>, verbatim: bool) -> Seq<char>
    decreases s.len(),
{
    if s.len() == 0 {
        s
    } else if parts_at(s.last(), verbatim) {
        without_tail(s.drop_last(), verbatim)
    } else if !verbatim && s.last() == '.' && (s.len() == 1 || is_sep(s[s.len() - 2])) {
        without_tail(s.drop_last(), verbatim)
    } else {
        s
    }
}

/// How many characters of a path stand before its last component.
pub open spec fn head_len(s: Seq<char>, verbatim: bool) -> int
    decreases s.len(),
{
    if s.len() == 0 || parts_at(s.last(), verbatim) {
        s.len() as int
    } else {
        head_len(s.drop_last(), verbatim)
    }
}

/// The components, without what `without_tail` takes away.
pub open spec fn body(p: Seq<char>) -> Seq<char> {
    without_tail(p.skip(start_len(p)), is_verbatim(p))
}

/// The last component, unless it is `..` or `.` or there is none.
pub open spec fn file_name(p: Seq<char>) -> Option<Seq<char>> {
    let b = body(p);
    let last = b.skip(head_len(b, is_verbatim(p)));
    if last.len() == 0 || last == seq!['.', '.'] || last == seq!['.'] {
        None
    } else {
        Some(last)
    }
}

/// The position of the last dot before `end`, or -1.
pub open spec fn last_dot(s: Seq<char>, end: int) -> int
    decreases end,
{
    if end <= 0 {
        -1
    } else if s[end - 1] == '.' {
        end - 1
    } else {
        last_dot(s, end - 1)
    }
}

/// A file name without its extension. A dot in front begins none.
pub open spec fn stem_of(name: Seq<char>) -> Seq<char> {
    let d = last_dot(name, name.len() as int);
    if d <= 0 {
        name
    } else {
        name.take(d)
    }
}

/// The extension of a file name.
pub open spec fn extension_of(name: Seq<char>) -> Option<Seq<char>> {
    let d = last_dot(name, name.len() as int);
    if d <= 0 {
        None
    } else {
        Some(name.skip(d + 1))
    }
}

/// The last component without its extension.
pub open spec fn file_stem(p: Seq<char>) -> Option<Seq<char>> {
    match file_name(p) {
        Some(n) => Some(stem_of(n)),
        None => None,
    }
}

/// The extension of the last component.
pub open spec fn extension(p: Seq<char>) -> Option<Seq<char>> {
    match file_name(p) {
        Some(n) => extension_of(n),
        None => None,
    }
}

/// The path without its last component. A root keeps its separator, and a path
/// that is only `.` leaves its prefix.
pub open spec fn parent(p: Seq<char>) -> Option<Seq<char>> {
    let b = body(p);
    let verbatim = is_verbatim(p);
    let rest = without_tail(b.take(head_len(b, verbatim)), verbatim);
    if b.len() > 0 {
        Some(p.take(start_len(p) + rest.len()))
    } else if begins_with_dot(p) {
        Some(p.take(prefix_len(p)))
    } else {
        None
    }
}

/// A path with another behind it. One with a prefix takes its place, one with a
/// root only leaves its prefix, and a bare drive gets no separator.
pub open spec fn pushed(base: Seq<char>, name: Seq<char>) -> Seq<char> {
    if prefix_len(name) > 0 {
        name
    } else if name.len() > 0 && is_sep(name[0]) {
        base.take(prefix_len(base)) + name
    } else if base.len() == 0 || is_sep(base.last()) || (base.len() == 2 && drive_at(base, 0)) {
        base + name
    } else {
        base.push('\\') + name
    }
}

proof fn lemma_next_sep(p: Seq<char>, from: int)
    requires
        0 <= from,
    ensures
        from <= p.len() ==> from <= next_sep(p, from) <= p.len(),
        from > p.len() ==> next_sep(p, from) == p.len(),
    decreases p.len() - from,
{
    if from < p.len() && !is_sep(p[from]) {
        lemma_next_sep(p, from + 1);
    }
}

/// The first separator at or after `from`, or the end.
pub fn find_sep(p: &[char], from: usize) -> (r: usize)
    ensures
        r == next_sep(p@, from as int),
        r <= p.len(),
{
    let mut i: usize = from;
    while i < p.len() && !sep(p[i])
        invariant
            next_sep(p@, from as int) == next_sep(p@, i as int),
        decreases p.len() - i,
    {
        i = i + 1;
    }
    if i < p.len() {
        i
    } else {
        p.len()
    }
}

proof fn lemma_next_backslash(p: Seq<char>, from: int)
    requires
        0 <= from,
    ensures
        from <= p.len() ==> from <= next_backslash(p, from) <= p.len(),
        from > p.len() ==> next_backslash(p, from) == p.len(),
    decreases p.len() - from,
{
    if from < p.len() && p[from] != '\\' {
        lemma_next_backslash(p, from + 1);
    }
}

/// The first `\` at or after `from`, or the end.
fn find_backslash(p: &[char], from: usize) -> (r: usize)
    ensures
        r == next_backslash(p@, from as int),
        r <= p.len(),
{
    let mut i: usize = from;
    while i < p.len() && p[i] != '\\'
        invariant
            next_backslash(p@, from as int) == next_backslash(p@, i as int),
        decreases p.len() - i,
    {
        i = i + 1;
    }
    if i < p.len() {
        i
    } else {
        p.len()
    }
}

/// Whether a path begins with `\\?\`.
fn verbatim(p: &[char]) -> (r: bool)
    ensures
        r == is_verbatim(p@),
{
    p.len() >= 4 && p[0] == '\\' && p[1] == '\\' && p[2] == '?' && p[3] == '\\'
}

/// How many characters the prefix of a path that begins with `\\?\` takes.
fn verbatim_prefix(p: &[char]) -> (r: usize)
    requires
        is_verbatim(p@),
    ensures
        r == prefix_len(p@),
        r <= p.len(),
{
    if p.len() >= 8 && p[4] == 'U' && p[5] == 'N' && p[6] == 'C' && sep(p[7]) {
        let server = find_backslash(p, 8);
        proof {
            lemma_next_backslash(p@, 8);
            lemma_next_backslash(p@, server + 1);
        }
        if server == p.len() {
            return server;
        }
        let share = find_backslash(p, server + 1);
        return if share > server + 1 {
            share
        } else {
            server
        };
    }
    if p.len() >= 6 && ascii_letter(p[4]) && p[5] == ':' && (p.len() == 6 || sep(p[6])) {
        return 6;
    }
    find_backslash(p, 4)
}

/// How many characters the prefix takes.
pub fn path_prefix(p: &[char]) -> (r: usize)
    ensures
        r == prefix_len(p@),
        r <= p.len(),
{
    if verbatim(p) {
        return verbatim_prefix(p);
    }
    if p.len() < 2 {
        return 0;
    }
    if !sep(p[0]) || !sep(p[1]) {
        return if ascii_letter(p[0]) && p[1] == ':' {
            2
        } else {
            0
        };
    }
    if p.len() >= 4 && p[2] == '.' && sep(p[3]) {
        return find_sep(p, 4);
    }
    let server = find_sep(p, 2);
    proof {
        lemma_next_sep(p@, 2);
        lemma_next_sep(p@, server + 1);
    }
    if server == p.len() {
        return 0;
    }
    let share = find_sep(p, server + 1);
    if server > 2 && share > server + 1 {
        share
    } else {
        0
    }
}

/// Whether a path has no root and begins with the component `.`.
fn dot_first(p: &[char], pre: usize) -> (r: bool)
    requires
        pre == prefix_len(p@),
        pre <= p.len(),
    ensures
        r == begins_with_dot(p@),
{
    let drive = p.len() >= 2 && ascii_letter(p[0]) && p[1] == ':';
    (pre == 0 || drive) && pre < p.len() && p[pre] == '.' && (p.len() - pre == 1 || sep(p[pre + 1]))
}

/// How many characters stand before the components.
fn path_start(p: &[char]) -> (r: usize)
    ensures
        r == start_len(p@),
        r <= p.len(),
{
    let pre = path_prefix(p);
    if pre < p.len() && (p[pre] == '\\' || (p[pre] == '/' && !verbatim(p))) {
        pre + 1
    } else if dot_first(p, pre) {
        pre + 1
    } else {
        pre
    }
}

/// Where a path ends without the separators and the `.` components at its end.
fn tail_end(s: &[char], v: bool) -> (r: usize)
    ensures
        r <= s.len(),
        s@.take(r as int) == without_tail(s@, v),
{
    let mut end: usize = s.len();
    assert(s@.take(end as int) =~= s@);
    let mut done = false;
    while !done && end > 0
        invariant
            end <= s.len(),
            without_tail(s@.take(end as int), v) == without_tail(s@, v),
            done ==> without_tail(s@, v) == s@.take(end as int),
        decreases end + (if done { 0int } else { 1int }),
    {
        let ghost part = s@.take(end as int);
        assert(part.last() == s@[end - 1]);
        assert(part.drop_last() =~= s@.take(end - 1));
        if end >= 2 {
            assert(part[part.len() - 2] == s@[end - 2]);
        }
        let c = s[end - 1];
        if c == '\\' || (c == '/' && !v) {
            end = end - 1;
        } else if !v && c == '.' && (end == 1 || sep(s[end - 2])) {
            end = end - 1;
        } else {
            done = true;
        }
    }
    end
}

/// How many characters of a path stand before its last component.
fn head_end(s: &[char], v: bool) -> (r: usize)
    ensures
        r == head_len(s@, v),
        r <= s.len(),
{
    let mut end: usize = s.len();
    assert(s@.take(end as int) =~= s@);
    while end > 0 && s[end - 1] != '\\' && (v || s[end - 1] != '/')
        invariant
            end <= s.len(),
            head_len(s@.take(end as int), v) == head_len(s@, v),
        decreases end,
    {
        let ghost part = s@.take(end as int);
        assert(part.last() == s@[end - 1]);
        assert(part.drop_last() =~= s@.take(end - 1));
        end = end - 1;
    }
    proof {
        if end > 0 {
            assert(s@.take(end as int).last() == s@[end - 1]);
        }
    }
    end
}

/// The last component of a path, unless it is `..` or `.` or there is none.
pub fn path_file_name(path: &str) -> (r: Option<String>)
    ensures
        r is Some <==> file_name(path@) is Some,
        r is Some ==> r->0@ == file_name(path@)->0,
{
    let p = chars_of(path);
    let v = verbatim(p.as_slice());
    let start = path_start(p.as_slice());
    let rest = &p.as_slice()[start..p.len()];
    assert(rest@ =~= p@.skip(start as int));
    let end = tail_end(rest, v);
    let b = &rest[0..end];
    assert(b@ =~= body(path@));
    let h = head_end(b, v);
    let last = &b[h..b.len()];
    assert(last@ =~= b@.skip(h as int));
    if last.len() == 0 {
        return None;
    }
    if last.len() == 2 && last[0] == '.' && last[1] == '.' {
        assert(last@ =~= seq!['.', '.']);
        return None;
    }
    if last.len() == 1 && last[0] == '.' {
        assert(last@ =~= seq!['.']);
        return None;
    }
    proof {
        if last@ == seq!['.', '.'] {
            assert(last@[0] == '.' && last@[1] == '.');
        }
        if last@ == seq!['.'] {
            assert(last@[0] == '.');
        }
    }
    Some(string_of(last))
}

/// The position of the last dot of a file name.
fn find_dot(s: &[char]) -> (r: Option<usize>)
    ensures
        r is Some ==> r->0 == last_dot(s@, s@.len() as int) && r->0 < s.len(),
        r is None ==> last_dot(s@, s@.len() as int) == -1,
{
    let mut end: usize = s.len();
    while end > 0
        invariant
            end <= s.len(),
            last_dot(s@, end as int) == last_dot(s@, s@.len() as int),
        decreases end,
    {
        if s[end - 1] == '.' {
            return Some(end - 1);
        }
        end = end - 1;
    }
    None
}

/// The last component of a path without its extension.
pub fn path_file_stem(path: &str) -> (r: Option<String>)
    ensures
        r is Some <==> file_stem(path@) is Some,
        r is Some ==> r->0@ == file_stem(path@)->0,
{
    match path_file_name(path) {
        None => None,
        Some(name) => {
            let n = chars_of(name.as_str());
            match find_dot(n.as_slice()) {
                Some(d) => {
                    if d == 0 {
                        Some(name)
                    } else {
                        assert(n@.subrange(0, d as int) =~= n@.take(d as int));
                        Some(string_of(&n.as_slice()[0..d]))
                    }
                },
                None => Some(name),
            }
        },
    }
}

/// The extension of the last component of a path.
pub fn path_extension(path: &str) -> (r: Option<String>)
    ensures
        r is Some <==> extension(path@) is Some,
        r is Some ==> r->0@ == extension(path@)->0,
{
    match path_file_name(path) {
        None => None,
        Some(name) => {
            let n = chars_of(name.as_str());
            match find_dot(n.as_slice()) {
                Some(d) => {
                    if d == 0 {
                        None
                    } else {
                        assert(n@.subrange(d + 1, n@.len() as int) =~= n@.skip(d + 1));
                        Some(string_of(&n.as_slice()[d + 1..n.len()]))
                    }
                },
                None => None,
            }
        },
    }
}

/// A path without its last component.
pub fn path_parent(path: &str) -> (r: Option<String>)
    ensures
        r is Some <==> parent(path@) is Some,
        r is Some ==> r->0@ == parent(path@)->0,
{
    let p = chars_of(path);
    let v = verbatim(p.as_slice());
    let start = path_start(p.as_slice());
    let rest = &p.as_slice()[start..p.len()];
    assert(rest@ =~= p@.skip(start as int));
    let end = tail_end(rest, v);
    let b = &rest[0..end];
    assert(b@ =~= body(path@));
    if b.len() == 0 {
        let pre = path_prefix(p.as_slice());
        if dot_first(p.as_slice(), pre) {
            assert(p@.subrange(0, pre as int) =~= p@.take(pre as int));
            return Some(string_of(&p.as_slice()[0..pre]));
        }
        return None;
    }
    let h = head_end(b, v);
    let head = &b[0..h];
    assert(head@ =~= b@.take(h as int));
    let e = tail_end(head, v);
    let out = string_of(&p.as_slice()[0..start + e]);
    assert(p@.subrange(0, start + e) =~= p@.take(start + e));
    Some(out)
}

/// A path with another behind it.
pub fn path_push(base: &str, name: &str) -> (r: String)
    ensures
        r@ == pushed(base@, name@),
{
    let b = chars_of(base);
    let n = chars_of(name);
    if path_prefix(n.as_slice()) > 0 {
        return name.to_owned();
    }
    if n.len() > 0 && sep(n[0]) {
        let pre = path_prefix(b.as_slice());
        let mut out = string_of(&b.as_slice()[0..pre]);
        assert(b@.subrange(0, pre as int) =~= b@.take(pre as int));
        out.push_str(name);
        return out;
    }
    let mut out = base.to_owned();
    let drive = b.len() == 2 && ascii_letter(b[0]) && b[1] == ':';
    if b.len() > 0 && !sep(b[b.len() - 1]) && !drive {
        out.push('\\');
    }
    out.push_str(name);
    out
}

proof fn lemma_without_tail(s: Seq<char>, v: bool)
    ensures
        without_tail(s, v).len() <= s.len(),
    decreases s.len(),
{
    if s.len() > 0 {
        lemma_without_tail(s.drop_last(), v);
    }
}

proof fn lemma_head_len(s: Seq<char>, v: bool)
    ensures
        0 <= head_len(s, v) <= s.len(),
    decreases s.len(),
{
    if s.len() > 0 && !parts_at(s.last(), v) {
        lemma_head_len(s.drop_last(), v);
    }
}

proof fn lemma_start_len(p: Seq<char>)
    ensures
        0 <= start_len(p) <= p.len(),
{
    lemma_next_sep(p, 2);
    lemma_next_sep(p, 4);
    lemma_next_sep(p, next_sep(p, 2) + 1);
    lemma_next_backslash(p, 4);
    lemma_next_backslash(p, 8);
    lemma_next_backslash(p, next_backslash(p, 8) + 1);
}

/// A path with a file name has a parent, and the parent is shorter.
pub proof fn law_parent_is_shorter(p: Seq<char>)
    requires
        file_name(p) is Some,
    ensures
        parent(p) is Some,
        parent(p)->0.len() < p.len(),
{
    let v = is_verbatim(p);
    lemma_start_len(p);
    let b = body(p);
    lemma_without_tail(p.skip(start_len(p)), v);
    lemma_head_len(b, v);
    lemma_without_tail(b.take(head_len(b, v)), v);
}

/// A name that is one component: no separator and no colon in it, and neither
/// `.` nor `..`.
pub open spec fn is_plain(name: Seq<char>) -> bool {
    &&& name.len() > 0
    &&& forall|k: int|
        0 <= k < name.len() ==> #[trigger] name[k] != '\\' && name[k] != '/' && name[k] != ':'
    &&& name != seq!['.']
    &&& name != seq!['.', '.']
}

/// A path on a drive, from its root: `C:\` with something behind it or nothing.
pub open spec fn is_on_drive(p: Seq<char>) -> bool {
    p.len() >= 3 && is_ascii_letter(p[0]) && p[1] == ':' && p[2] == '\\'
}

proof fn lemma_head_of_plain(s: Seq<char>, name: Seq<char>, verbatim: bool)
    requires
        s.len() == 0 || parts_at(s.last(), verbatim),
        forall|k: int| 0 <= k < name.len() ==> !parts_at(#[trigger] name[k], verbatim),
    ensures
        head_len(s + name, verbatim) == s.len(),
    decreases name.len(),
{
    if name.len() == 0 {
        assert(s + name =~= s);
    } else {
        let rest = name.drop_last();
        assert((s + name).drop_last() =~= s + rest);
        assert((s + name).last() == name[name.len() - 1]);
        lemma_head_of_plain(s, rest, verbatim);
    }
}

/// The last component of a path with a name behind it is that name, and the path
/// without it is the path that the name was put behind.
pub proof fn law_name_goes_behind_its_folder(base: Seq<char>, name: Seq<char>)
    requires
        is_on_drive(base),
        is_plain(name),
    ensures
        file_name(pushed(base, name)) == Some(name),
        base.last() != '\\' && base.last() != '/' && base.last() != '.' ==> pushed(base, name)
            == base.push('\\') + name && parent(pushed(base, name)) == Some(base),
        base.len() == 3 ==> pushed(base, name) == base + name && parent(pushed(base, name)) == Some(
            base,
        ),
{
    let p = pushed(base, name);
    assert(name[0] != '\\' && name[0] != '/');
    if name.len() > 1 {
        assert(name[1] != ':');
    }
    assert(prefix_len(name) == 0);
    let front = if is_sep(base.last()) {
        base
    } else {
        base.push('\\')
    };
    assert(p =~= front + name);
    assert(!is_verbatim(p));
    assert(prefix_len(p) == 2);
    assert(start_len(p) == 3);
    let inner = front.skip(3);
    let b = p.skip(3);
    assert(b =~= inner + name);
    assert(b.last() == name[name.len() - 1]);
    assert(name.last() == name[name.len() - 1]);
    if b.last() == '.' {
        if name.len() == 1 {
            assert(name =~= seq!['.']);
        } else {
            assert(b[b.len() - 2] == name[name.len() - 2]);
        }
    }
    assert(without_tail(b, false) == b);
    assert(inner.len() == 0 || inner.last() == front.last());
    lemma_head_of_plain(inner, name, false);
    assert(b.skip(inner.len() as int) =~= name);
    assert(b.take(inner.len() as int) =~= inner);
    if base.len() == 3 {
        assert(inner.len() == 0);
        assert(p.take(3) =~= base);
    } else if !is_sep(base.last()) && base.last() != '.' {
        assert(inner.drop_last() =~= base.skip(3));
        assert(inner.last() == '\\');
        reveal_with_fuel(without_tail, 2);
        assert(without_tail(inner, false) =~= base.skip(3));
        assert(p.take(3 + base.skip(3).len() as int) =~= base);
    }
}

/// A file name is its stem, a dot and its extension. Without a dot, or with one
/// only in front, it has no extension, and is its own stem.
pub proof fn law_name_is_stem_and_extension(stem: Seq<char>, ext: Seq<char>)
    requires
        forall|k: int| 0 <= k < ext.len() ==> #[trigger] ext[k] != '.',
    ensures
        stem.len() > 0 ==> stem_of(stem.push('.') + ext) == stem,
        stem.len() > 0 ==> extension_of(stem.push('.') + ext) == Some(ext),
        stem_of(ext) == ext,
        extension_of(ext) is None,
        stem_of(seq!['.'] + ext) == seq!['.'] + ext,
        extension_of(seq!['.'] + ext) is None,
{
    let name = stem.push('.') + ext;
    lemma_dot_at(name, stem.len() as int, name.len() as int);
    assert(name.take(stem.len() as int) =~= stem);
    assert(name.skip(stem.len() as int + 1) =~= ext);
    lemma_dot_at(ext, -1, ext.len() as int);
    let hidden = seq!['.'] + ext;
    lemma_dot_at(hidden, 0, hidden.len() as int);
}

proof fn lemma_dot_at(s: Seq<char>, at: int, end: int)
    requires
        -1 <= at < end <= s.len() || (at == -1 && end == 0),
        at >= 0 ==> s[at] == '.',
        forall|k: int| at < k < end ==> #[trigger] s[k] != '.',
    ensures
        last_dot(s, end) == at,
    decreases end,
{
    if end > at + 1 {
        assert(s[end - 1] != '.');
        lemma_dot_at(s, at, end - 1);
    }
}

/// The prefix of a path: a drive is its letter and the colon, and a share is the
/// server and the share with what separates them. What is none of these has none.
pub proof fn law_prefix_of_a_path(server: Seq<char>, share: Seq<char>, rest: Seq<char>)
    requires
        server.len() > 0,
        share.len() > 0,
        forall|k: int| 0 <= k < server.len() ==> !is_sep(#[trigger] server[k]),
        forall|k: int| 0 <= k < share.len() ==> !is_sep(#[trigger] share[k]),
        server != seq!['?'],
        server != seq!['.'],
        rest.len() == 0 || is_sep(rest[0]),
    ensures
        prefix_len(seq!['\\', '\\'] + server + seq!['\\'] + share + rest) == 3 + server.len()
            + share.len(),
        rest.len() >= 2 && is_ascii_letter(rest[0]) && rest[1] == ':' ==> prefix_len(rest) == 2,
        rest.len() > 0 && rest[0] == '\\' && (rest.len() == 1 || !is_sep(rest[1])) ==> prefix_len(
            rest,
        ) == 0,
        prefix_len(share) == 0 || (share.len() >= 2 && share[1] == ':'),
{
    let p = seq!['\\', '\\'] + server + seq!['\\'] + share + rest;
    let a: int = 2 + server.len() as int;
    let b: int = a + 1 + share.len();
    assert(p[0] == '\\' && p[1] == '\\' && p[2] == server[0]);
    assert forall|k: int| 2 <= k < a implies !is_sep(#[trigger] p[k]) by {
        assert(p[k] == server[k - 2]);
    }
    assert forall|k: int| a + 1 <= k < b implies !is_sep(#[trigger] p[k]) by {
        assert(p[k] == share[k - a - 1]);
    }
    assert(p[a] == '\\');
    if server.len() == 1 {
        assert(server =~= seq![server[0]]);
    } else {
        assert(p[3] == server[1]);
        assert(!is_sep(server[1]));
    }
    lemma_sep_at(p, 2, a);
    lemma_sep_at(p, a + 1, b);
    assert(!is_sep(share[0]));
}

proof fn lemma_sep_at(p: Seq<char>, from: int, at: int)
    requires
        0 <= from <= at <= p.len(),
        at < p.len() ==> is_sep(p[at]),
        forall|k: int| from <= k < at ==> !is_sep(#[trigger] p[k]),
    ensures
        next_sep(p, from) == at,
    decreases at - from,
{
    if from < at {
        assert(!is_sep(p[from]));
        lemma_sep_at(p, from + 1, at);
    }
}

/// A path with a prefix takes the place of the one that it is put behind; one that
/// begins at the root keeps the prefix of the other.
pub proof fn law_absolute_paths_take_the_place(base: Seq<char>, name: Seq<char>)
    ensures
        name.len() >= 2 && is_ascii_letter(name[0]) && name[1] == ':' ==> pushed(base, name)
            == name,
        name.len() > 0 && is_sep(name[0]) && (name.len() == 1 || !is_sep(name[1])) && base.len()
            >= 2 && is_ascii_letter(base[0]) && base[1] == ':' ==> pushed(base, name)
            == base.take(2) + name,
        base.len() == 2 && is_ascii_letter(base[0]) && base[1] == ':' && is_plain(name) ==> pushed(
            base,
            name,
        ) == base + name,
{
    if is_plain(name) {
        assert(name[0] != '\\' && name[0] != '/');
        if name.len() > 1 {
            assert(name[1] != ':');
        }
    }
}

} // verus!
