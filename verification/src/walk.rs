//! Path mode on the disk: the row of a path that is there, and the walk below
//! the deepest folder of one that is not.
//!
//! A search asks the disk one question after the other. Each answer leads to
//! the next question or to the rows.
use crate::apps::pool::UiResult;
use crate::sort::{is_order, keys_of, stable_order, SortKey};
use crate::text::{has_text, lowercase, str_eq, str_has, str_starts, text_starts, texts};
use crate::winpath::{file_name, law_parent_is_shorter, parent, path_file_name, path_parent};
use vstd::prelude::*;
use vstd::utf8::encode_utf8;

verus! {

/// How many items a walk looks at.
pub const MAX_VISITED: usize = 25_000;

/// How many items of one folder a walk looks at.
pub const MAX_DIR_ENTRIES: usize = 5_000;

/// How many rows a walk finds.
pub const MAX_OUT: usize = 200;

/// How many folders below its start a walk reads.
pub const MAX_DEPTH: usize = 3;

/// What an item of a folder is.
#[derive(Clone, Copy, PartialEq, Eq, Structural)]
pub enum ItemKind {
    /// The item could not be read.
    Unreadable,
    /// The item is there, but not what it is.
    Untyped,
    /// A link, which is never followed.
    Link,
    File,
    Dir,
}

/// An item of a folder.
pub struct Item {
    pub name: String,
    pub path: String,
    pub kind: ItemKind,
}

/// An item that a walk found.
pub struct Found {
    pub rank: u8,
    pub is_dir: bool,
    pub name: String,
    pub path: String,
}

/// How well a lowercase name fits the filter.
pub open spec fn fit(name: Seq<char>, filter: Seq<char>) -> Option<u8> {
    if !has_text(name, filter) {
        None
    } else if name == filter {
        Some(1)
    } else if text_starts(name, filter) {
        Some(2)
    } else {
        Some(3)
    }
}

/// The items of a folder, and how many of them were looked at.
pub struct Level {
    pub items: Vec<Item>,
    pub at: usize,
}

/// A walk: what it looks for, how many items it looked at, what it found, and
/// the folders it is in, the innermost last.
pub struct Walk {
    pub filter: String,
    pub visited: usize,
    pub out: Vec<Found>,
    pub levels: Vec<Level>,
}

/// An item: its name, its path, and what it is.
pub type ItemView = (Seq<char>, Seq<char>, ItemKind);

/// A found item: its rank, whether it is a folder, its name and its path.
pub type FoundView = (u8, bool, Seq<char>, Seq<char>);

/// A walk as texts and numbers.
#[verifier::ext_equal]
pub ghost struct WalkView {
    pub filter: Seq<char>,
    pub visited: int,
    pub out: Seq<FoundView>,
    pub levels: Seq<(Seq<ItemView>, int)>,
}

/// The items of a folder.
pub open spec fn items_view(items: Seq<Item>) -> Seq<ItemView> {
    items.map_values(|i: Item| (i.name@, i.path@, i.kind))
}

/// The found items.
pub open spec fn found_view(out: Seq<Found>) -> Seq<FoundView> {
    out.map_values(|f: Found| (f.rank, f.is_dir, f.name@, f.path@))
}

/// The folders of a walk.
pub open spec fn levels_view(levels: Seq<Level>) -> Seq<(Seq<ItemView>, int)> {
    levels.map_values(|l: Level| (items_view(l.items@), l.at as int))
}

/// How many items are left in the folders of a walk.
pub open spec fn left_in(levels: Seq<(Seq<ItemView>, int)>) -> nat
    decreases levels.len(),
{
    if levels.len() == 0 {
        0
    } else {
        let top = levels.last();
        left_in(levels.drop_last()) + if 0 <= top.1 < top.0.len() {
            (top.0.len() - top.1) as nat
        } else {
            0
        }
    }
}

impl WalkView {
    /// The walk has seen or found as much as it may.
    pub open spec fn full(self) -> bool {
        self.visited >= MAX_VISITED || self.out.len() >= MAX_OUT
    }

    /// The innermost folder is done: the walk is full, or nothing of the folder
    /// is left to look at.
    pub open spec fn level_done(self) -> bool {
        let top = self.levels.last();
        self.full() || top.1 < 0 || top.1 >= top.0.len() || top.1 >= MAX_DIR_ENTRIES
    }

    /// The item that is looked at next.
    pub open spec fn item(self) -> ItemView {
        self.levels.last().0[self.levels.last().1]
    }

    /// The walk after it left the innermost folder.
    pub open spec fn left(self) -> WalkView {
        WalkView { levels: self.levels.drop_last(), ..self }
    }

    /// The walk after it looked at one more item. Files and folders that fit
    /// are found; an item that cannot be read does not count.
    pub open spec fn looked(self) -> WalkView {
        let item = self.item();
        let top = self.levels.last();
        let named = item.2 == ItemKind::File || item.2 == ItemKind::Dir;
        let rank = fit(lowercase(item.0), self.filter);
        WalkView {
            filter: self.filter,
            visited: if item.2 == ItemKind::Unreadable {
                self.visited
            } else {
                self.visited + 1
            },
            out: if named && rank is Some {
                self.out.push((rank->0, item.2 == ItemKind::Dir, item.0, item.1))
            } else {
                self.out
            },
            levels: self.levels.drop_last().push((top.0, top.1 + 1)),
        }
    }

    /// The item that is looked at next is a folder that has to be read.
    pub open spec fn opens(self) -> bool {
        self.item().2 == ItemKind::Dir && self.levels.len() <= MAX_DEPTH && !self.looked().full()
    }

    /// Where the walk stops next: in front of a folder that has to be read, or
    /// at its end.
    pub open spec fn stop(self) -> (WalkView, Option<Seq<char>>)
        decreases left_in(self.levels) + self.levels.len(),
    {
        if self.levels.len() == 0 {
            (self, None)
        } else if self.level_done() {
            self.left().stop()
        } else if self.opens() {
            (self.looked(), Some(self.item().1))
        } else {
            proof {
                assert(self.looked().levels.drop_last() =~= self.levels.drop_last());
            }
            self.looked().stop()
        }
    }

    /// The walk after it went into a folder with these items.
    pub open spec fn inside(self, items: Seq<ItemView>) -> WalkView {
        WalkView { levels: self.levels.push((items, 0)), ..self }
    }

    /// The bounds of a walk hold, and each row fits the filter.
    pub open spec fn wf(self) -> bool {
        &&& 0 <= self.visited <= MAX_VISITED
        &&& self.out.len() <= MAX_OUT
        &&& self.levels.len() <= MAX_DEPTH + 1
        &&& forall|i: int|
            0 <= i < self.levels.len() ==> 0 <= (#[trigger] self.levels[i]).1
                <= self.levels[i].0.len() && self.levels[i].1 <= MAX_DIR_ENTRIES
        &&& forall|i: int|
            0 <= i < self.out.len() ==> fit(lowercase((#[trigger] self.out[i]).2), self.filter)
                == Some(self.out[i].0)
    }
}

impl View for Walk {
    type V = WalkView;

    open spec fn view(&self) -> WalkView {
        WalkView {
            filter: self.filter@,
            visited: self.visited as int,
            out: found_view(self.out@),
            levels: levels_view(self.levels@),
        }
    }
}

/// A walk keeps its bounds: it looks at no more items, finds no more rows and
/// goes no deeper than it may, and each row it finds fits the filter. It asks
/// for a folder only where it may go into it.
pub proof fn law_walk_is_bounded(w: WalkView)
    requires
        w.wf(),
    ensures
        w.stop().0.wf(),
        w.stop().0.filter == w.filter,
        w.stop().1 is Some ==> w.stop().0.levels.len() <= MAX_DEPTH,
    decreases left_in(w.levels) + w.levels.len(),
{
    if w.levels.len() > 0 {
        lemma_step_keeps(w);
        if w.level_done() {
            law_walk_is_bounded(w.left());
        } else if !w.opens() {
            law_walk_is_bounded(w.looked());
        }
    }
}

impl Walk {
    /// A walk that is about to read its first folder.
    pub fn new(filter: String) -> (r: Walk)
        ensures
            r@.wf(),
            r@ == (WalkView {
                filter: filter@,
                visited: 0,
                out: Seq::empty(),
                levels: Seq::empty(),
            }),
    {
        let w = Walk { filter, visited: 0, out: Vec::new(), levels: Vec::new() };
        assert(found_view(w.out@) =~= Seq::<FoundView>::empty());
        assert(levels_view(w.levels@) =~= Seq::<(Seq<ItemView>, int)>::empty());
        w
    }

    /// Goes into a folder whose items were read.
    pub fn descend(&mut self, items: Vec<Item>)
        requires
            old(self)@.wf(),
            old(self)@.levels.len() <= MAX_DEPTH,
        ensures
            final(self)@.wf(),
            final(self)@ == old(self)@.inside(items_view(items@)),
    {
        let ghost before = self.levels@;
        self.levels.push(Level { items, at: 0 });
        proof {
            let l = self.levels@.last();
            assert(levels_view(self.levels@) =~= levels_view(before).push(
                (items_view(items@), 0int),
            ));
            assert forall|i: int| 0 <= i < self@.levels.len() implies 0 <= (
            #[trigger] self@.levels[i]).1 <= self@.levels[i].0.len() && self@.levels[i].1
                <= MAX_DIR_ENTRIES by {
                if i < before.len() {
                    assert(self@.levels[i] == old(self)@.levels[i]);
                }
            }
        }
    }

    /// Looks at the next item of the innermost folder. The result is the folder
    /// to read, where the item is one and the walk may go deeper.
    fn look(&mut self) -> (r: Option<String>)
        requires
            old(self)@.wf(),
            old(self)@.levels.len() > 0,
            !old(self)@.level_done(),
        ensures
            final(self)@ == old(self)@.looked(),
            r is Some <==> old(self)@.opens(),
            r is Some ==> r->0@ == old(self)@.item().1,
    {
        let top: usize = self.levels.len() - 1;
        let ghost before = self.levels@;
        let ghost found = self.out@;
        assert(self@.levels.last() == (items_view(before.last().items@), before.last().at as int));
        let at: usize = self.levels[top].at;
        let item = &self.levels[top].items[at];
        assert(self@.item() == (item.name@, item.path@, item.kind));
        let kind = item.kind;
        let named = kind == ItemKind::File || kind == ItemKind::Dir;
        let is_dir = kind == ItemKind::Dir;
        let path = item.path.clone();
        let mut hit: Option<Found> = None;
        if named {
            let low = item.name.as_str().to_lowercase();
            if str_has(low.as_str(), self.filter.as_str()) {
                let rank: u8 = if str_eq(low.as_str(), self.filter.as_str()) {
                    1
                } else if str_starts(low.as_str(), self.filter.as_str()) {
                    2
                } else {
                    3
                };
                hit = Some(
                    Found { rank, is_dir, name: item.name.clone(), path: item.path.clone() },
                );
            }
        }
        if kind != ItemKind::Unreadable {
            self.visited = self.visited + 1;
        }
        match hit {
            Some(f) => {
                self.out.push(f);
                assert(found_view(self.out@) =~= found_view(found).push(
                    (f.rank, f.is_dir, f.name@, f.path@),
                ));
            },
            None => {},
        }
        self.levels[top].at = at + 1;
        proof {
            assert(levels_view(self.levels@) =~= levels_view(before).drop_last().push(
                (items_view(before.last().items@), at + 1),
            ));
            assert(found_view(self.out@).len() == self.out.len());
        }
        if is_dir && top < MAX_DEPTH && self.visited < MAX_VISITED && self.out.len() < MAX_OUT {
            Some(path)
        } else {
            None
        }
    }

    /// Walks on to the next folder that has to be read, or to the end.
    pub fn advance(&mut self) -> (r: Option<String>)
        requires
            old(self)@.wf(),
        ensures
            final(self)@.wf(),
            final(self)@ == old(self)@.stop().0,
            r is Some <==> old(self)@.stop().1 is Some,
            r is Some ==> r->0@ == old(self)@.stop().1->0,
            r is Some ==> final(self)@.levels.len() <= MAX_DEPTH,
    {
        let ghost goal = self@.stop();
        proof {
            law_walk_is_bounded(self@);
        }
        while self.levels.len() > 0
            invariant
                goal == old(self)@.stop(),
                goal.0.wf(),
                goal.1 is Some ==> goal.0.levels.len() <= MAX_DEPTH,
                self@.wf(),
                self@.stop() == goal,
            decreases left_in(self@.levels) + self@.levels.len(),
        {
            let ghost w = self@;
            let top: usize = self.levels.len() - 1;
            assert(w.levels.last() == (
                items_view(self.levels@.last().items@),
                self.levels@.last().at as int,
            ));
            assert(found_view(self.out@).len() == self.out.len());
            let level_done = self.visited >= MAX_VISITED || self.out.len() >= MAX_OUT
                || self.levels[top].at >= self.levels[top].items.len() || self.levels[top].at
                >= MAX_DIR_ENTRIES;
            assert(level_done == w.level_done());
            proof {
                law_walk_is_bounded(w);
                lemma_step_keeps(w);
            }
            if level_done {
                let ghost before = self.levels@;
                let _ = self.levels.pop();
                assert(levels_view(self.levels@) =~= levels_view(before).drop_last());
                assert(self@ =~= w.left());
            } else {
                match self.look() {
                    Some(path) => {
                        return Some(path);
                    },
                    None => {},
                }
            }
        }
        assert(self@.levels.len() == 0);
        None
    }

    /// The rows of what was found: the best fitting first, of those the folders
    /// first, then by name.
    pub fn rows(&self) -> (r: Vec<UiResult>)
        ensures
            shows_found(r@, self@.out),
    {
        let mut keys: Vec<SortKey> = Vec::new();
        let mut i: usize = 0;
        while i < self.out.len()
            invariant
                i <= self.out.len(),
                keys.len() == i,
                forall|k: int|
                    0 <= k < i ==> ((#[trigger] keys@[k]).num, keys@[k].text@) == found_key(
                        self@.out[k],
                    ),
            decreases self.out.len() - i,
        {
            let f = &self.out[i];
            assert(self@.out[i as int] == (f.rank, f.is_dir, f.name@, f.path@));
            let num: u64 = 2 * (f.rank as u64) + if f.is_dir {
                0u64
            } else {
                1u64
            };
            let low = f.name.as_str().to_lowercase();
            keys.push(SortKey { num, text: vstd::slice::slice_to_vec(low.as_str().as_bytes()) });
            i = i + 1;
        }
        assert(keys_of(keys@) =~= found_keys(self@.out));
        let order = stable_order(&keys);
        let mut out: Vec<UiResult> = Vec::new();
        let mut k: usize = 0;
        while k < order.len() && k < MAX_OUT
            invariant
                k <= order.len(),
                k <= MAX_OUT,
                out.len() == k,
                self@.out.len() == self.out.len(),
                order.len() == self.out.len(),
                is_order(order@, found_keys(self@.out)),
                forall|m: int|
                    0 <= m < k ==> is_found_row(#[trigger] out@[m], self@.out[order@[m] as int]),
            decreases order.len() - k,
        {
            assert(order@[k as int] < found_keys(self@.out).len());
            let f = &self.out[order[k]];
            assert(self@.out[order@[k as int] as int] == (f.rank, f.is_dir, f.name@, f.path@));
            out.push(
                UiResult {
                    name: f.name.clone(),
                    path: f.path.clone(),
                    is_dir: f.is_dir,
                    kind: if f.is_dir {
                        "dir"
                    } else {
                        "file"
                    },
                    rank: f.rank,
                },
            );
            k = k + 1;
        }
        out
    }
}

/// One step of a walk keeps its bounds and brings it nearer to its stop.
proof fn lemma_step_keeps(w: WalkView)
    requires
        w.wf(),
        w.levels.len() > 0,
    ensures
        w.level_done() ==> w.left().wf() && w.left().stop() == w.stop(),
        !w.level_done() ==> w.looked().wf() && left_in(w.looked().levels) + w.looked().levels.len()
            < left_in(w.levels) + w.levels.len(),
        !w.level_done() && !w.opens() ==> w.looked().stop() == w.stop(),
{
    if w.level_done() {
        assert forall|i: int| 0 <= i < w.left().levels.len() implies 0 <= (
        #[trigger] w.left().levels[i]).1 <= w.left().levels[i].0.len() && w.left().levels[i].1
            <= MAX_DIR_ENTRIES by {
            assert(w.left().levels[i] == w.levels[i]);
        }
    } else {
        let n = w.looked();
        assert(n.levels.drop_last() =~= w.levels.drop_last());
        assert forall|i: int| 0 <= i < n.levels.len() implies 0 <= (#[trigger] n.levels[i]).1
            <= n.levels[i].0.len() && n.levels[i].1 <= MAX_DIR_ENTRIES by {
            if i < n.levels.len() - 1 {
                assert(n.levels[i] == w.levels[i]);
            }
        }
        assert forall|i: int| 0 <= i < n.out.len() implies fit(
            lowercase((#[trigger] n.out[i]).2),
            n.filter,
        ) == Some(n.out[i].0) by {
            if i < w.out.len() {
                assert(n.out[i] == w.out[i]);
            }
        }
    }
}

/// What a found item is ordered by: its rank, folders before files, then the
/// name in lowercase.
pub open spec fn found_key(f: FoundView) -> (u64, Seq<u8>) {
    (
        (2 * f.0 + if f.1 {
            0int
        } else {
            1
        }) as u64,
        encode_utf8(lowercase(f.2)),
    )
}

/// What the found items are ordered by.
pub open spec fn found_keys(out: Seq<FoundView>) -> Seq<(u64, Seq<u8>)> {
    out.map_values(|f: FoundView| found_key(f))
}

/// The row of a found item.
pub open spec fn is_found_row(r: UiResult, f: FoundView) -> bool {
    &&& r.rank == f.0
    &&& r.is_dir == f.1
    &&& r.name@ == f.2
    &&& r.path@ == f.3
    &&& r.kind@ == if f.1 {
        "dir"@
    } else {
        "file"@
    }
}

/// `r` shows the found items in their order.
pub open spec fn shows_found(r: Seq<UiResult>, out: Seq<FoundView>) -> bool {
    exists|order: Seq<usize>|
        {
            &&& #[trigger] is_order(order, found_keys(out))
            &&& r.len() == if out.len() < MAX_OUT {
                out.len() as int
            } else {
                MAX_OUT as int
            }
            &&& forall|i: int|
                0 <= i < r.len() ==> is_found_row(#[trigger] r[i], out[order[i] as int])
        }
}

/// What a search in path mode asks for next.
pub enum PathStep {
    /// Look at what stands at a path.
    Stat(String),
    /// Read the items of a folder.
    List(String),
    /// These are the rows.
    Rows(Vec<UiResult>),
}

/// A search in path mode: the path that was asked for; the part of it that is
/// looked at; the names that were cut from its end, the last first; whether
/// the path itself is looked at for the first time; and the walk below it.
pub struct PathSearch {
    pub target: String,
    pub prefix: String,
    pub rest: Vec<String>,
    pub fresh: bool,
    pub walk: Walk,
}

/// The only row of a path that is there.
pub open spec fn is_exact_row(r: Seq<UiResult>, path: Seq<char>, is_dir: bool) -> bool {
    &&& r.len() == 1
    &&& r[0].name@ == match file_name(path) {
        Some(n) => n,
        None => path,
    }
    &&& r[0].path@ == path
    &&& r[0].is_dir == is_dir
    &&& r[0].kind@ == if is_dir {
        "dir"@
    } else {
        "file"@
    }
    &&& r[0].rank == 1
}

/// The only row of a path that is there.
fn exact_row(path: &str, is_dir: bool) -> (r: Vec<UiResult>)
    ensures
        is_exact_row(r@, path@, is_dir),
{
    let name = match path_file_name(path) {
        Some(n) => n,
        None => path.to_owned(),
    };
    let mut out: Vec<UiResult> = Vec::new();
    out.push(
        UiResult {
            name,
            path: path.to_owned(),
            is_dir,
            kind: if is_dir {
                "dir"
            } else {
                "file"
            },
            rank: 1,
        },
    );
    out
}

/// Names with a `\` between them.
pub open spec fn with_seps(names: Seq<Seq<char>>) -> Seq<char>
    decreases names.len(),
{
    if names.len() == 0 {
        Seq::empty()
    } else if names.len() == 1 {
        names[0]
    } else {
        with_seps(names.drop_last()).push('\\') + names.last()
    }
}

/// Names with a `\` between them.
fn join_names(names: &Vec<String>) -> (r: String)
    ensures
        r@ == with_seps(texts(names@)),
{
    let mut out = String::new();
    let mut i: usize = 0;
    let ghost all = texts(names@);
    assert(out@ =~= with_seps(all.take(0)));
    while i < names.len()
        invariant
            i <= names.len(),
            all == texts(names@),
            out@ == with_seps(all.take(i as int)),
        decreases names.len() - i,
    {
        assert(all.take(i + 1).drop_last() =~= all.take(i as int));
        assert(all.take(i + 1).last() == names@[i as int]@);
        let ghost before = out@;
        if i > 0 {
            out.push('\\');
        }
        out.push_str(names[i].as_str());
        proof {
            if i == 0 {
                assert(before =~= Seq::<char>::empty());
                assert(out@ =~= names@[0]@);
            }
        }
        i = i + 1;
    }
    assert(all.take(i as int) =~= all);
    out
}

impl PathSearch {
    /// What the walk looks for: the names that were cut, in lowercase.
    pub open spec fn filter(self) -> Seq<char> {
        lowercase(with_seps(texts(self.rest@)))
    }

    /// Begins a search for a path. The first question is what stands there.
    pub fn path_results(expanded: &str) -> (r: PathSearch)
        ensures
            r.target@ == expanded@,
            r.prefix@ == expanded@,
            r.rest@.len() == 0,
            r.fresh,
            r.walk@.wf(),
            r.walk@.levels.len() == 0,
    {
        PathSearch {
            target: expanded.to_owned(),
            prefix: expanded.to_owned(),
            rest: Vec::new(),
            fresh: true,
            walk: Walk::new(String::new()),
        }
    }

    /// Takes the answer on what stands at the path that was asked for:
    /// `Some(true)` a folder, `Some(false)` anything else, `None` nothing. A path
    /// that is there gives one row. Else its last names are cut until a folder
    /// is left, and the walk below that folder looks for what was cut.
    pub fn stat(&mut self, found: Option<bool>) -> (r: PathStep)
        requires
            old(self).walk@.wf(),
        ensures
            final(self).walk@.wf(),
            final(self).target == old(self).target,
            match (old(self).fresh, found) {
                (true, Some(d)) => r is Rows && is_exact_row(r->Rows_0@, old(self).target@, d)
                    && *final(self) == *old(self),
                (true, None) => r is Stat && r->Stat_0@ == old(self).prefix@ && *final(self) == (
                PathSearch { fresh: false, ..*old(self) }),
                (false, Some(false)) => r is Rows && r->Rows_0@.len() == 0 && *final(self) == *old(
                    self,
                ),
                (false, None) => match file_name(old(self).prefix@) {
                    None => r is Rows && r->Rows_0@.len() == 0 && *final(self) == *old(self),
                    Some(n) => {
                        &&& r is Stat
                        &&& r->Stat_0@ == final(self).prefix@
                        &&& final(self).prefix@ == parent(old(self).prefix@)->0
                        &&& texts(final(self).rest@) == texts(old(self).rest@).push(n)
                        &&& !final(self).fresh
                        &&& final(self).walk == old(self).walk
                    },
                },
                (false, Some(true)) => if old(self).filter().len() == 0 {
                    r is Rows && is_exact_row(r->Rows_0@, old(self).prefix@, true)
                        && *final(self) == *old(self)
                } else {
                    &&& r is List
                    &&& r->List_0@ == old(self).prefix@
                    &&& final(self).prefix == old(self).prefix
                    &&& final(self).rest == old(self).rest
                    &&& !final(self).fresh
                    &&& final(self).walk@ == (WalkView {
                        filter: old(self).filter(),
                        visited: 0,
                        out: Seq::empty(),
                        levels: Seq::empty(),
                    })
                },
            },
    {
        if self.fresh {
            return match found {
                Some(is_dir) => PathStep::Rows(exact_row(self.target.as_str(), is_dir)),
                None => {
                    self.fresh = false;
                    PathStep::Stat(self.prefix.clone())
                },
            };
        }
        match found {
            Some(true) => {
                let joined = join_names(&self.rest);
                let filter = joined.as_str().to_lowercase();
                if filter.as_str().is_empty() {
                    return PathStep::Rows(exact_row(self.prefix.as_str(), true));
                }
                self.walk = Walk::new(filter);
                PathStep::List(self.prefix.clone())
            },
            Some(false) => PathStep::Rows(Vec::new()),
            None => match path_file_name(self.prefix.as_str()) {
                None => PathStep::Rows(Vec::new()),
                Some(name) => {
                    proof {
                        law_parent_is_shorter(self.prefix@);
                    }
                    let ghost before = self.rest@;
                    match path_parent(self.prefix.as_str()) {
                        Some(up) => {
                            self.rest.push(name);
                            self.prefix = up;
                            assert(texts(self.rest@) =~= texts(before).push(name@));
                        },
                        None => {},
                    }
                    PathStep::Stat(self.prefix.clone())
                },
            },
        }
    }

    /// Takes the items of the folder that was asked for; none where it could not
    /// be read. The walk goes on to the next folder, or to the rows.
    pub fn list(&mut self, items: Vec<Item>) -> (r: PathStep)
        requires
            old(self).walk@.wf(),
            old(self).walk@.levels.len() <= MAX_DEPTH,
        ensures
            final(self).walk@.wf(),
            *final(self) == (PathSearch { walk: final(self).walk, ..*old(self) }),
            ({
                let (end, ask) = old(self).walk@.inside(items_view(items@)).stop();
                &&& final(self).walk@ == end
                &&& match ask {
                    Some(p) => r is List && r->List_0@ == p && end.levels.len() <= MAX_DEPTH,
                    None => r is Rows && shows_found(r->Rows_0@, end.out),
                }
            }),
    {
        self.walk.descend(items);
        match self.walk.advance() {
            Some(p) => PathStep::List(p),
            None => PathStep::Rows(self.walk.rows()),
        }
    }
}

} // verus!
