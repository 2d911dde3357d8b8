//! The plain window: what it shows, and how it answers keys and the mouse.
use crate::index::search::{found, search, SearchResult, PagedSearch};
use crate::index::store::IndexStore;
use crate::num::{decimal, decimal_text};
use crate::rows::{
    display_name, kind_keys, kind_of, open_result, open_target, ordered_by, path_display,
    result_kind, shown_name, shown_path, sort_results, Kind,
};
use crate::text::{str_trim, trimmed};
use vstd::prelude::*;

verus! {

/// The width of the window.
pub const WIN_W: i32 = 700;

/// The height of the bar with the query.
pub const BAR_H: i32 = 74;

/// The height of a row.
pub const ROW_H: i32 = 58;

/// The height of the line below the rows.
pub const STATUS_H: i32 = 26;

/// How many rows are shown.
pub const MAX_VIS: usize = 8;

/// How many results are searched for.
pub const SEARCH_LIMIT: usize = 120;

/// What the window holds: the results, the selected row, and the row under the
/// mouse.
pub struct WindowState {
    pub results: Vec<SearchResult>,
    pub selected: usize,
    pub hover: Option<usize>,
}

/// How many rows a number of results takes.
pub open spec fn rows_for(n: nat) -> nat {
    if n < MAX_VIS {
        n
    } else {
        MAX_VIS as nat
    }
}

/// What the window does in answer to an event.
#[derive(Clone, Copy, PartialEq, Eq, Structural)]
pub struct Reaction {
    /// The window is drawn again.
    pub redraw: bool,
    /// The window takes the height of its rows.
    pub resize: bool,
    /// The window is hidden.
    pub hide: bool,
    /// The window is shown in the middle of the screen.
    pub show: bool,
    /// The query gets the keyboard.
    pub focus: bool,
    /// The selected row is opened; with `Some(true)` the folder it is in.
    pub open: Option<bool>,
    /// The event is left to the system.
    pub pass_on: bool,
    /// The window is closed, and the program with it.
    pub close: bool,
}

/// Nothing happens.
pub open spec fn quiet() -> Reaction {
    Reaction {
        redraw: false,
        resize: false,
        hide: false,
        show: false,
        focus: false,
        open: None,
        pass_on: false,
        close: false,
    }
}

/// Nothing happens.
fn nothing() -> (r: Reaction)
    ensures
        r == quiet(),
{
    Reaction {
        redraw: false,
        resize: false,
        hide: false,
        show: false,
        focus: false,
        open: None,
        pass_on: false,
        close: false,
    }
}

/// A key of the keyboard.
#[derive(Clone, Copy, PartialEq, Eq, Structural)]
pub enum Key {
    Escape,
    Up,
    Down,
    /// Enter, and whether the control key is held.
    Enter(bool),
    Other,
}

/// An event of the window.
#[derive(Clone, Copy, PartialEq, Eq, Structural)]
pub enum WindowEvent {
    Key(Key),
    /// The mouse is at this height.
    MouseMove(i32),
    /// The left button was pressed at this height.
    Click(i32),
    /// The left button was pressed twice at this height.
    DoubleClick(i32),
    /// The window is active from now on, or no longer.
    Activate(bool),
    /// The window is asked for.
    Show,
    /// The hotkey was pressed while the window was visible, or not.
    Toggle(bool),
    /// This item of the tray menu was chosen.
    Menu(u32),
}

/// The items of the tray menu.
pub const MENU_SHOW: u32 = 1001;

pub const MENU_EXIT: u32 = 1002;

/// The row at a height, if one of `n` rows is there.
pub open spec fn row_at(y: int, n: nat) -> Option<int> {
    if y < BAR_H || (y - BAR_H) / 58 >= n {
        None
    } else {
        Some((y - BAR_H) / 58)
    }
}

impl WindowState {
    /// The selected row and the row under the mouse are rows that are shown.
    pub open spec fn wf(&self) -> bool {
        let n = rows_for(self.results@.len());
        &&& self.selected == 0 || self.selected < n
        &&& self.hover is Some ==> self.hover->0 < n
    }

    /// How many rows are shown.
    pub open spec fn shown(&self) -> nat {
        rows_for(self.results@.len())
    }

    /// A window without results.
    pub fn new() -> (r: WindowState)
        ensures
            r.wf(),
            r.results@.len() == 0,
            r.selected == 0,
            r.hover is None,
    {
        WindowState { results: Vec::new(), selected: 0, hover: None }
    }

    /// How many rows are shown.
    pub fn visible(&self) -> (r: usize)
        ensures
            r == self.shown(),
    {
        if self.results.len() < MAX_VIS {
            self.results.len()
        } else {
            MAX_VIS
        }
    }

    /// The height of the window: the bar, the rows, and the line below them.
    pub fn win_h_i(&self) -> (r: i32)
        ensures
            r == BAR_H + self.shown() * ROW_H + if self.shown() > 0 {
                STATUS_H as int
            } else {
                0
            },
    {
        let rows = self.visible();
        let h: i32 = BAR_H + rows as i32 * ROW_H;
        if rows > 0 {
            h + STATUS_H
        } else {
            h
        }
    }

    /// The row at a height.
    fn row(&self, y: i32) -> (r: Option<usize>)
        ensures
            r is Some <==> row_at(y as int, self.shown()) is Some,
            r is Some ==> Some(r->0 as int) == row_at(y as int, self.shown()),
    {
        if y < BAR_H {
            return None;
        }
        let row: i32 = (y - BAR_H) / ROW_H;
        if (row as usize) < self.visible() {
            Some(row as usize)
        } else {
            None
        }
    }

    /// Takes a new query: the results for it, by kind, with the first selected.
    pub fn query_changed(
        &mut self,
        store: &IndexStore,
        query: &str,
        case_sensitive: bool,
        excluded: &Vec<String>,
    ) -> (r: Reaction)
        requires
            store.searchable(),
            store.ext_usable(),
        ensures
            final(self).wf(),
            final(self).selected == 0,
            final(self).hover is None,
            exists|page: PagedSearch|
                {
                    &&& #[trigger] found(
                        *store,
                        trimmed(query@),
                        SEARCH_LIMIT as nat,
                        0,
                        case_sensitive,
                        excluded@,
                        page,
                    )
                    &&& ordered_by(final(self).results@, page.results@, kind_keys(page.results@))
                },
            r == (Reaction { redraw: true, resize: true, ..quiet() }),
    {
        let q = str_trim(query);
        let raw = search(store, q.as_str(), SEARCH_LIMIT, case_sensitive, excluded.as_slice());
        self.results = sort_results(&raw);
        self.selected = 0;
        self.hover = None;
        Reaction { redraw: true, resize: true, ..nothing() }
    }

    /// The state after an event.
    pub open spec fn after(&self, e: WindowEvent) -> (usize, Option<usize>) {
        match e {
            WindowEvent::Key(Key::Down) => if self.selected + 1 < self.shown() {
                ((self.selected + 1) as usize, self.hover)
            } else {
                (self.selected, self.hover)
            },
            WindowEvent::Key(Key::Up) => if self.selected > 0 {
                ((self.selected - 1) as usize, self.hover)
            } else {
                (self.selected, self.hover)
            },
            WindowEvent::MouseMove(y) => (
                self.selected,
                match row_at(y as int, self.shown()) {
                    Some(row) => Some(row as usize),
                    None => None,
                },
            ),
            WindowEvent::Click(y) => match row_at(y as int, self.shown()) {
                Some(row) => (row as usize, self.hover),
                None => (self.selected, self.hover),
            },
            _ => (self.selected, self.hover),
        }
    }

    /// What the window does in answer to an event.
    pub open spec fn reaction(&self, e: WindowEvent) -> Reaction {
        match e {
            WindowEvent::Key(Key::Escape) => Reaction { hide: true, ..quiet() },
            WindowEvent::Key(Key::Down) => Reaction {
                redraw: self.selected + 1 < self.shown(),
                ..quiet()
            },
            WindowEvent::Key(Key::Up) => Reaction { redraw: self.selected > 0, ..quiet() },
            WindowEvent::Key(Key::Enter(ctrl)) => Reaction {
                open: Some(ctrl),
                hide: true,
                ..quiet()
            },
            WindowEvent::Key(Key::Other) => Reaction { pass_on: true, ..quiet() },
            WindowEvent::MouseMove(y) => Reaction {
                redraw: self.after(e).1 != self.hover,
                ..quiet()
            },
            WindowEvent::Click(y) => Reaction {
                redraw: row_at(y as int, self.shown()) is Some,
                focus: true,
                ..quiet()
            },
            WindowEvent::DoubleClick(y) => if y >= BAR_H {
                Reaction { open: Some(false), hide: true, ..quiet() }
            } else {
                quiet()
            },
            WindowEvent::Activate(active) => Reaction { hide: !active, ..quiet() },
            WindowEvent::Show => Reaction { show: true, ..quiet() },
            WindowEvent::Toggle(visible) => Reaction { hide: visible, show: !visible, ..quiet() },
            WindowEvent::Menu(item) => Reaction {
                show: item == MENU_SHOW,
                close: item == MENU_EXIT,
                ..quiet()
            },
        }
    }

    /// Answers an event. The selection stays on a row that is shown.
    pub fn wnd_proc(&mut self, e: WindowEvent) -> (r: Reaction)
        requires
            old(self).wf(),
        ensures
            final(self).wf(),
            final(self).results == old(self).results,
            (final(self).selected, final(self).hover) == old(self).after(e),
            r == old(self).reaction(e),
    {
        match e {
            WindowEvent::Key(k) => match k {
                Key::Escape => Reaction { hide: true, ..nothing() },
                Key::Down => {
                    if self.selected + 1 < self.visible() {
                        self.selected = self.selected + 1;
                        Reaction { redraw: true, ..nothing() }
                    } else {
                        nothing()
                    }
                },
                Key::Up => {
                    if self.selected > 0 {
                        self.selected = self.selected - 1;
                        Reaction { redraw: true, ..nothing() }
                    } else {
                        nothing()
                    }
                },
                Key::Enter(ctrl) => Reaction { open: Some(ctrl), hide: true, ..nothing() },
                Key::Other => Reaction { pass_on: true, ..nothing() },
            },
            WindowEvent::MouseMove(y) => {
                let now = self.row(y);
                let changed = match (now, self.hover) {
                    (Some(a), Some(b)) => a != b,
                    (None, None) => false,
                    _ => true,
                };
                self.hover = now;
                Reaction { redraw: changed, ..nothing() }
            },
            WindowEvent::Click(y) => match self.row(y) {
                Some(row) => {
                    self.selected = row;
                    Reaction { redraw: true, focus: true, ..nothing() }
                },
                None => Reaction { focus: true, ..nothing() },
            },
            WindowEvent::DoubleClick(y) => {
                if y >= BAR_H {
                    Reaction { open: Some(false), hide: true, ..nothing() }
                } else {
                    nothing()
                }
            },
            WindowEvent::Activate(active) => Reaction { hide: !active, ..nothing() },
            WindowEvent::Show => Reaction { show: true, ..nothing() },
            WindowEvent::Toggle(visible) => Reaction { hide: visible, show: !visible, ..nothing() },
            WindowEvent::Menu(item) => Reaction {
                show: item == MENU_SHOW,
                close: item == MENU_EXIT,
                ..nothing()
            },
        }
    }

    /// What is opened for the selected row, if there is one.
    pub fn open_selected(&self, folder_only: bool) -> (r: Option<String>)
        ensures
            r is Some <==> self.selected < self.results@.len(),
            r is Some ==> r->0@ == open_target(self.results@[self.selected as int], folder_only),
    {
        if self.selected < self.results.len() {
            Some(open_result(&self.results[self.selected], folder_only))
        } else {
            None
        }
    }

    /// What the window draws. `query_len` is the length of the query, and
    /// `shell_names` the names that the shell gives to the rows that are shown.
    pub fn paint_d2d(&self, query_len: usize, shell_names: &Vec<String>) -> (r: Scene)
        requires
            self.wf(),
            shell_names.len() == self.shown(),
        ensures
            r.placeholder == (query_len == 0 && self.results@.len() == 0),
            r.separator == (self.results@.len() > 0),
            r.rows@.len() == self.shown(),
            forall|i: int|
                0 <= i < self.shown() ==> is_row_scene(
                    #[trigger] r.rows@[i],
                    *self,
                    i,
                    shell_names@[i]@,
                ),
            r.status is Some <==> self.results@.len() > 0,
            r.status is Some ==> r.status->0@ == status_line(self.results@.len()),
            r.status_top == BAR_H + self.shown() * ROW_H,
    {
        let mut rows: Vec<RowScene> = Vec::new();
        let n = self.visible();
        let mut i: usize = 0;
        while i < n
            invariant
                i <= n,
                n == self.shown(),
                n <= MAX_VIS,
                n <= self.results@.len(),
                shell_names.len() == n,
                rows.len() == i,
                forall|k: int|
                    0 <= k < i ==> is_row_scene(#[trigger] rows@[k], *self, k, shell_names@[k]@),
            decreases n - i,
        {
            let r = &self.results[i];
            let hovered = match self.hover {
                Some(h) => h == i,
                None => false,
            };
            let top: i32 = BAR_H + i as i32 * ROW_H;
            rows.push(
                RowScene {
                    top,
                    icon_top: top + 13,
                    even: i % 2 == 0,
                    selected: i == self.selected,
                    hovered: i != self.selected && hovered,
                    is_dir: r.is_dir,
                    kind: result_kind(r),
                    name: display_name(r, shell_names[i].as_str()),
                    path: path_display(r),
                },
            );
            i = i + 1;
        }
        let status = if self.results.len() > 0 {
            Some(status_words(self.results.len()))
        } else {
            None
        };
        Scene {
            placeholder: query_len == 0 && self.results.len() == 0,
            separator: self.results.len() > 0,
            rows,
            status,
            status_top: BAR_H + n as i32 * ROW_H,
        }
    }
}

/// A row as it is drawn: where it begins, where its icon begins, its
/// background, and its texts.
pub struct RowScene {
    pub top: i32,
    pub icon_top: i32,
    pub even: bool,
    pub selected: bool,
    pub hovered: bool,
    pub is_dir: bool,
    pub kind: Kind,
    pub name: String,
    pub path: String,
}

/// The window as it is drawn.
pub struct Scene {
    pub placeholder: bool,
    pub separator: bool,
    pub rows: Vec<RowScene>,
    pub status: Option<String>,
    pub status_top: i32,
}

/// `s` is how row `i` is drawn.
pub open spec fn is_row_scene(s: RowScene, w: WindowState, i: int, shell: Seq<char>) -> bool {
    let r = w.results@[i];
    &&& s.top == BAR_H + i * ROW_H
    &&& s.icon_top == s.top + 13
    &&& s.even == (i % 2 == 0)
    &&& s.selected == (i == w.selected)
    &&& s.hovered == (i != w.selected && w.hover is Some && w.hover->0 == i)
    &&& s.is_dir == r.is_dir
    &&& s.kind == kind_of(r, false)
    &&& s.name@ == shown_name(r, shell)
    &&& s.path@ == shown_path(r.full_path@)
}

/// The keys, as the line below the rows names them.
pub const KEYS_HELP: &'static str = "   \u{B7}   \u{2191}\u{2193} navigate  \u{B7}  Enter open  \u{B7}  Ctrl+Enter open folder  \u{B7}  Esc close";

/// The line below the rows for a number of results.
pub open spec fn status_line(total: nat) -> Seq<char> {
    if total > MAX_VIS {
        "Showing 8 of "@ + decimal(total) + KEYS_HELP@
    } else if total == 1 {
        decimal(total) + " result"@ + KEYS_HELP@
    } else {
        decimal(total) + " results"@ + KEYS_HELP@
    }
}

/// The line below the rows for a number of results.
fn status_words(total: usize) -> (r: String)
    ensures
        r@ == status_line(total as nat),
{
    let n = decimal_text(total as u64);
    if total > MAX_VIS {
        let mut out = "Showing 8 of ".to_owned();
        out.push_str(n.as_str());
        out.push_str(KEYS_HELP);
        out
    } else {
        let mut out = n;
        if total == 1 {
            out.push_str(" result");
        } else {
            out.push_str(" results");
        }
        out.push_str(KEYS_HELP);
        out
    }
}

/// Where the window stands on a screen of a width: in the middle.
pub fn centered_left(screen_width: i32) -> (r: i32)
    requires
        screen_width >= 0,
    ensures
        screen_width >= WIN_W ==> r == (screen_width - WIN_W) / 2,
        screen_width < WIN_W ==> r == -((WIN_W - screen_width) / 2),
{
    if screen_width >= WIN_W {
        (screen_width - WIN_W) / 2
    } else {
        -((WIN_W - screen_width) / 2)
    }
}

/// The row under the mouse is the row that is drawn there: below the bar, one row
/// every 58 points, as many as are shown.
pub proof fn law_mouse_meets_the_row_that_is_drawn(
    s: RowScene,
    w: WindowState,
    i: int,
    shell: Seq<char>,
    y: int,
)
    requires
        0 <= i < w.shown(),
        is_row_scene(s, w, i, shell),
    ensures
        row_at(y, w.shown()) == Some(i) <==> s.top <= y < s.top + 58,
        s.top == 74 + 58 * i,
        y < 74 || y >= 74 + 58 * w.shown() ==> row_at(y, w.shown()) is None,
        w.shown() <= 8,
        w.results@.len() <= 8 ==> w.shown() == w.results@.len(),
{
    if y >= 74 {
        let k = (y - 74) / 58;
        assert(58 * k <= y - 74 < 58 * k + 58);
    }
}

/// A step down and a step up undo each other, and neither leaves the rows that
/// are shown. A click selects the row under it, and opening takes the selected
/// row.
pub proof fn law_selection_moves_by_one_row(w: WindowState, below: WindowState)
    requires
        w.wf(),
        below.results == w.results,
        below.hover == w.hover,
        (below.selected, below.hover) == w.after(WindowEvent::Key(Key::Down)),
    ensures
        w.selected + 1 < w.shown() ==> below.selected == w.selected + 1 && below.after(
            WindowEvent::Key(Key::Up),
        ) == (w.selected, w.hover),
        w.selected + 1 >= w.shown() ==> below.selected == w.selected,
        w.selected == 0 ==> w.after(WindowEvent::Key(Key::Up)).0 == 0,
        w.selected > 0 ==> w.after(WindowEvent::Key(Key::Up)).0 == w.selected - 1,
{
}

/// The window is hidden by what takes the user away from it, and shown by what
/// calls it: never both at once.
pub proof fn law_window_is_hidden_or_shown(w: WindowState, e: WindowEvent)
    ensures
        !(w.reaction(e).hide && w.reaction(e).show),
        w.reaction(e).hide <==> {
            ||| e == WindowEvent::Key(Key::Escape)
            ||| e == WindowEvent::Key(Key::Enter(true))
            ||| e == WindowEvent::Key(Key::Enter(false))
            ||| e == WindowEvent::Activate(false)
            ||| e == WindowEvent::Toggle(true)
            ||| (e is DoubleClick && e->DoubleClick_0 >= 74)
        },
        w.reaction(e).show <==> {
            ||| e == WindowEvent::Show
            ||| e == WindowEvent::Toggle(false)
            ||| e == WindowEvent::Menu(1001)
        },
        w.reaction(e).close <==> e == WindowEvent::Menu(1002),
        w.reaction(e).open is Some ==> w.reaction(e).hide,
        w.reaction(e).open == Some(true) <==> e == WindowEvent::Key(Key::Enter(true)),
{
}

/// A row is shown for each result, up to eight.
pub proof fn law_how_many_rows_are_shown(n: nat)
    ensures
        n <= 8 ==> rows_for(n) == n,
        n > 8 ==> rows_for(n) == 8,
{
}

/// The status line begins with the number of results where all are shown, and
/// else says how many there are.
pub proof fn law_status_tells_the_number(total: nat)
    ensures
        ({
            let line = status_line(total);
            let d = decimal(total);
            &&& total <= 8 ==> line.take(d.len() as int) == d
            &&& total > 8 ==> line.subrange(13, 13int + d.len()) == d
        }),
{
    reveal_strlit("Showing 8 of ");
    reveal_strlit(" result");
    reveal_strlit(" results");
    let line = status_line(total);
    let d = decimal(total);
    if total > 8 {
        assert("Showing 8 of "@.len() == 13);
        assert(line.subrange(13, 13int + d.len()) =~= d);
    } else {
        assert(line.take(d.len() as int) =~= d);
    }
}

} // verus!
