//! The state of the terminal viewer and its response to keys and the mouse.
//! Drawing and running git are the caller's: a step says when the diff of
//! the selected range has to be loaded again.
use vstd::prelude::*;

use crate::text::{decimal, owned, push_decimal, push_str, str_eq};
use crate::view::{
    changed_files, changed_files_spec, commits_view, diff_revs, list_index_at_row, parse_diff,
    parsed_diff, revs_for, row_file, row_file_spec, row_hit, rows_view, Commit, RowView,
    SideBySide,
};

verus! {

/// The panel that keys act on.
#[derive(Clone, Copy, Debug, PartialEq, Eq)]
pub enum Focus {
    Commits,
    Files,
    Diff,
}

/// What the caller does after an event.
#[derive(Clone, Copy, Debug, PartialEq, Eq)]
pub enum Step {
    /// Nothing more.
    Stay,
    /// Load the diff of the selected range again.
    Reload,
    /// Leave the viewer.
    Quit,
}

/// A key, as far as the viewer tells keys apart.
#[derive(Clone, Copy, Debug, PartialEq, Eq)]
pub enum KeyCode {
    Char(char),
    Esc,
    Tab,
    Down,
    Up,
    Home,
    End,
    PageDown,
    PageUp,
    Other,
}

/// A key event: the key, whether it is a press, and whether Control is held.
#[derive(Clone, Copy, Debug, PartialEq, Eq)]
pub struct Key {
    pub code: KeyCode,
    pub press: bool,
    pub ctrl: bool,
}

#[derive(Clone, Copy, Debug, PartialEq, Eq)]
pub enum MouseKind {
    LeftDown,
    LeftUp,
    LeftDrag,
    ScrollDown,
    ScrollUp,
    Other,
}

/// A mouse event at a screen cell, with Shift held or not.
#[derive(Clone, Copy, Debug, PartialEq, Eq)]
pub struct Mouse {
    pub kind: MouseKind,
    pub column: u16,
    pub row: u16,
    pub shift: bool,
}

/// A rectangle of screen cells.
#[derive(Clone, Copy, Debug, PartialEq, Eq)]
pub struct Area {
    pub x: u16,
    pub y: u16,
    pub width: u16,
    pub height: u16,
}

/// `a + b`, saturating at `u16::MAX`.
pub open spec fn sat16(a: u16, b: u16) -> int {
    if a + b > u16::MAX {
        u16::MAX as int
    } else {
        a + b
    }
}

/// Whether the cell (`column`, `row`) lies in `a`.
pub open spec fn area_contains(a: Area, column: u16, row: u16) -> bool {
    a.x <= column < sat16(a.x, a.width) && a.y <= row < sat16(a.y, a.height)
}

impl Area {
    pub fn contains(&self, column: u16, row: u16) -> (r: bool)
        ensures
            r == area_contains(*self, column, row),
    {
        let right = self.x.saturating_add(self.width);
        let bottom = self.y.saturating_add(self.height);
        self.x <= column && column < right && self.y <= row && row < bottom
    }
}

/// Where the viewer stands: the selected log entry (0 is the worktree, `k`
/// the `k`-th commit), the other end of a selected range, the focused
/// panel, the selected file, the first diff row shown, the inline or
/// side-by-side layout, and the log entry a press landed on.
#[derive(Clone, Copy, Debug, PartialEq, Eq)]
pub struct Nav {
    pub log_idx: usize,
    pub anchor: Option<usize>,
    pub focus: Focus,
    pub file_idx: usize,
    pub file_selected: bool,
    pub scroll: usize,
    pub inline: bool,
    pub click_start: Option<usize>,
}

/// What navigation reads but does not change: the number of log entries,
/// the changed files, the file of each diff row, and where the lists were
/// last drawn.
pub struct NavCtx {
    pub log_len: int,
    pub files: Seq<Seq<char>>,
    pub row_files: Seq<Seq<char>>,
    pub commits_area: Area,
    pub files_area: Area,
    pub diff_area: Area,
    pub commit_hits: Seq<(u16, usize)>,
    pub file_hits: Seq<(u16, usize)>,
}

pub open spec fn clamp(v: int, lo: int, hi: int) -> int {
    if v < lo {
        lo
    } else if v > hi {
        hi
    } else {
        v
    }
}

/// `s + delta`, saturating at 0 and `usize::MAX`.
pub open spec fn sat_scroll(s: usize, delta: int) -> usize {
    clamp(s + delta, 0, usize::MAX as int) as usize
}

/// Selecting log entry `idx` (clamped to the log): with `keep`, the range
/// keeps its anchor or starts at the current entry; without, it is
/// dropped. The diff is loaded again only when the selection changed.
pub open spec fn select_log_spec(n: Nav, c: NavCtx, idx: int, keep: bool) -> (Nav, Step) {
    let i = if idx <= c.log_len - 1 {
        idx
    } else {
        c.log_len - 1
    };
    let anchor: Option<usize> = if keep {
        match n.anchor {
            Some(a) => Some(a),
            None => Some(n.log_idx),
        }
    } else {
        None
    };
    if n.log_idx == i && n.anchor == anchor {
        (n, Step::Stay)
    } else {
        (Nav { log_idx: i as usize, anchor, ..n }, Step::Reload)
    }
}

/// Index of the first of `row_files[k..]` equal to `name`, else 0.
pub open spec fn first_row(row_files: Seq<Seq<char>>, name: Seq<char>, k: int) -> int
    decreases row_files.len() - k,
{
    if k < 0 || k >= row_files.len() {
        0
    } else if row_files[k] == name {
        k
    } else {
        first_row(row_files, name, k + 1)
    }
}

/// Selecting file `idx` (clamped to the list) scrolls the diff to the
/// file's first row.
pub open spec fn select_file_spec(n: Nav, c: NavCtx, idx: int) -> Nav {
    if c.files.len() == 0 {
        n
    } else {
        let f = if idx < c.files.len() {
            idx
        } else {
            c.files.len() - 1
        };
        Nav { file_idx: f as usize, file_selected: true, scroll: first_row(c.row_files, c.files[f], 0) as usize, ..n }
    }
}

pub open spec fn move_log_spec(n: Nav, c: NavCtx, delta: int, keep: bool) -> (Nav, Step) {
    select_log_spec(n, c, clamp(n.log_idx + delta, 0, c.log_len - 1), keep)
}

pub open spec fn move_files_spec(n: Nav, c: NavCtx, delta: int) -> Nav {
    if c.files.len() == 0 {
        n
    } else {
        select_file_spec(n, c, clamp(n.file_idx + delta, 0, c.files.len() - 1))
    }
}

/// One step in the focused panel: the log, the file list, or the diff's
/// scroll position.
pub open spec fn move_by_spec(n: Nav, c: NavCtx, delta: int) -> (Nav, Step) {
    match n.focus {
        Focus::Commits => move_log_spec(n, c, delta, false),
        Focus::Files => (move_files_spec(n, c, delta), Step::Stay),
        Focus::Diff => (Nav { scroll: sat_scroll(n.scroll, delta), ..n }, Step::Stay),
    }
}

pub open spec fn move_home_spec(n: Nav, c: NavCtx) -> (Nav, Step) {
    match n.focus {
        Focus::Commits => select_log_spec(n, c, 0, false),
        Focus::Files => (select_file_spec(n, c, 0), Step::Stay),
        Focus::Diff => (Nav { scroll: 0, ..n }, Step::Stay),
    }
}

pub open spec fn move_end_spec(n: Nav, c: NavCtx) -> (Nav, Step) {
    match n.focus {
        Focus::Commits => select_log_spec(n, c, c.log_len - 1, false),
        Focus::Files => (
            if c.files.len() > 0 {
                select_file_spec(n, c, c.files.len() - 1)
            } else {
                n
            },
            Step::Stay,
        ),
        Focus::Diff => (Nav { scroll: (usize::MAX / 4) as usize, ..n }, Step::Stay),
    }
}

pub open spec fn next_focus(f: Focus) -> Focus {
    match f {
        Focus::Commits => Focus::Files,
        Focus::Files => Focus::Diff,
        Focus::Diff => Focus::Commits,
    }
}

/// A page in the focused panel: 20 diff rows, 10 log entries or 10 files.
pub open spec fn page_spec(n: Nav, c: NavCtx, down: bool) -> (Nav, Step) {
    let sign = if down {
        1int
    } else {
        -1int
    };
    match n.focus {
        Focus::Diff => (Nav { scroll: sat_scroll(n.scroll, 20 * sign), ..n }, Step::Stay),
        Focus::Commits => move_log_spec(n, c, 10 * sign, false),
        Focus::Files => (move_files_spec(n, c, 10 * sign), Step::Stay),
    }
}

/// The range extends from its anchor (set to the current entry when there
/// is none) by one entry up or down.
pub open spec fn extend_spec(n: Nav, c: NavCtx, delta: int) -> (Nav, Step) {
    let n1 = if n.anchor is None {
        Nav { anchor: Some(n.log_idx), ..n }
    } else {
        n
    };
    move_log_spec(n1, c, delta, true)
}

/// Response to a key: only presses count; Control-C, `q` and Esc quit; Tab
/// cycles the focus; `v` starts or drops a range; `J`/`K` extend it; `d`
/// switches the layout; `j`/`k`, arrows, `g`/`G`, Home/End and the page
/// keys move in the focused panel.
pub open spec fn key_spec(n: Nav, c: NavCtx, k: Key) -> (Nav, Step) {
    if !k.press {
        (n, Step::Stay)
    } else if k.ctrl && k.code == KeyCode::Char('c') {
        (n, Step::Quit)
    } else {
        match k.code {
            KeyCode::Esc => (n, Step::Quit),
            KeyCode::Tab => (Nav { focus: next_focus(n.focus), ..n }, Step::Stay),
            KeyCode::Down => move_by_spec(n, c, 1),
            KeyCode::Up => move_by_spec(n, c, -1),
            KeyCode::Home => move_home_spec(n, c),
            KeyCode::End => move_end_spec(n, c),
            KeyCode::PageDown => page_spec(n, c, true),
            KeyCode::PageUp => page_spec(n, c, false),
            KeyCode::Other => (n, Step::Stay),
            KeyCode::Char(ch) => if ch == 'q' {
                (n, Step::Quit)
            } else if ch == 'v' {
                (Nav { anchor: if n.anchor is Some { None } else { Some(n.log_idx) }, ..n }, Step::Reload)
            } else if ch == 'J' {
                extend_spec(n, c, 1)
            } else if ch == 'K' {
                extend_spec(n, c, -1)
            } else if ch == 'd' {
                (Nav { inline: !n.inline, ..n }, Step::Stay)
            } else if ch == 'j' {
                move_by_spec(n, c, 1)
            } else if ch == 'k' {
                move_by_spec(n, c, -1)
            } else if ch == 'g' {
                move_home_spec(n, c)
            } else if ch == 'G' {
                move_end_spec(n, c)
            } else {
                (n, Step::Stay)
            },
        }
    }
}

/// The wheel over a panel focuses it and moves one entry, or three diff rows.
pub open spec fn wheel_spec(n: Nav, c: NavCtx, m: Mouse, down: bool) -> (Nav, Step) {
    let sign = if down {
        1int
    } else {
        -1int
    };
    if area_contains(c.commits_area, m.column, m.row) {
        move_log_spec(Nav { focus: Focus::Commits, ..n }, c, sign, false)
    } else if area_contains(c.files_area, m.column, m.row) {
        (move_files_spec(Nav { focus: Focus::Files, ..n }, c, sign), Step::Stay)
    } else if area_contains(c.diff_area, m.column, m.row) {
        (Nav { focus: Focus::Diff, scroll: sat_scroll(n.scroll, 3 * sign), ..n }, Step::Stay)
    } else {
        (n, Step::Stay)
    }
}

/// Response to the mouse: a press on a log entry selects it (with Shift,
/// as the end of a range) and remembers it; a press on a file selects it;
/// a press on the diff focuses it; a release on a log entry selects it when
/// no press started there; a Shift-drag over the log extends the range;
/// the wheel moves in the panel under the pointer.
pub open spec fn mouse_spec(n: Nav, c: NavCtx, m: Mouse) -> (Nav, Step) {
    match m.kind {
        MouseKind::LeftDown => if area_contains(c.commits_area, m.column, m.row) {
            match row_hit(c.commit_hits, m.row, 0) {
                Some(i) => select_log_spec(Nav { focus: Focus::Commits, click_start: Some(i), ..n }, c, i as int, m.shift),
                None => (n, Step::Stay),
            }
        } else if area_contains(c.files_area, m.column, m.row) {
            match row_hit(c.file_hits, m.row, 0) {
                Some(i) => (select_file_spec(Nav { focus: Focus::Files, ..n }, c, i as int), Step::Stay),
                None => (n, Step::Stay),
            }
        } else if area_contains(c.diff_area, m.column, m.row) {
            (Nav { focus: Focus::Diff, ..n }, Step::Stay)
        } else {
            (n, Step::Stay)
        },
        MouseKind::LeftUp => {
            let (n1, s) = if area_contains(c.commits_area, m.column, m.row) && n.click_start is None {
                match row_hit(c.commit_hits, m.row, 0) {
                    Some(i) => select_log_spec(Nav { focus: Focus::Commits, ..n }, c, i as int, m.shift),
                    None => (n, Step::Stay),
                }
            } else {
                (n, Step::Stay)
            };
            (Nav { click_start: None, ..n1 }, s)
        },
        MouseKind::LeftDrag => if m.shift && area_contains(c.commits_area, m.column, m.row) {
            match row_hit(c.commit_hits, m.row, 0) {
                Some(i) => select_log_spec(Nav { focus: Focus::Commits, ..n }, c, i as int, true),
                None => (n, Step::Stay),
            }
        } else {
            (n, Step::Stay)
        },
        MouseKind::ScrollDown => wheel_spec(n, c, m, true),
        MouseKind::ScrollUp => wheel_spec(n, c, m, false),
        MouseKind::Other => (n, Step::Stay),
    }
}

/// The selected range of log entries, lowest first.
pub open spec fn range_of(n: Nav) -> (int, int) {
    match n.anchor {
        Some(a) => if a <= n.log_idx {
            (a as int, n.log_idx as int)
        } else {
            (n.log_idx as int, a as int)
        },
        None => (n.log_idx as int, n.log_idx as int),
    }
}

/// Law: `d` toggles between the inline and the side-by-side diff: pressed
/// twice, it leaves the viewer as it was, and it never reloads.
pub proof fn law_d_toggles(n: Nav, c: NavCtx)
    ensures
        ({
            let d = Key { code: KeyCode::Char('d'), press: true, ctrl: false };
            let once = key_spec(n, c, d);
            &&& once.1 == Step::Stay
            &&& once.0.inline == !n.inline
            &&& key_spec(once.0, c, d) == (n, Step::Stay)
        }),
{
}

/// Law: `q`, `Esc` and Ctrl-C quit, leaving the navigation as it was.
pub proof fn law_quit_keys(n: Nav, c: NavCtx, ctrl: bool)
    ensures
        key_spec(n, c, Key { code: KeyCode::Char('q'), press: true, ctrl: false }) == (n, Step::Quit),
        key_spec(n, c, Key { code: KeyCode::Esc, press: true, ctrl }) == (n, Step::Quit),
        key_spec(n, c, Key { code: KeyCode::Char('c'), press: true, ctrl: true }) == (n, Step::Quit),
{
}

/// Law: the selected range runs from its first to its last log entry, both
/// within the log.
pub proof fn law_range_in_log(n: Nav, c: NavCtx)
    requires
        nav_ok(n, c),
    ensures
        0 <= range_of(n).0 <= range_of(n).1 < c.log_len,
{
}

/// Navigation stays within the log and the file list.
pub open spec fn nav_ok(n: Nav, c: NavCtx) -> bool {
    &&& 0 <= n.log_idx < c.log_len
    &&& (n.anchor matches Some(a) ==> a < c.log_len)
    &&& (c.files.len() > 0 ==> n.file_idx < c.files.len())
}

/// The viewer: the paths it is limited to, the log, where it stands, the
/// diff shown and its files, the status message, and where the panels and
/// list rows were last drawn.
pub struct Browser {
    pub paths: Vec<String>,
    pub commits: Vec<Commit>,
    pub nav: Nav,
    pub view: SideBySide,
    pub files: Vec<String>,
    pub status: String,
    pub commits_area: Area,
    pub files_area: Area,
    pub diff_area: Area,
    pub commit_hits: Vec<(u16, usize)>,
    pub file_hits: Vec<(u16, usize)>,
}

impl Browser {
    pub open spec fn ctx(&self) -> NavCtx {
        NavCtx {
            log_len: self.commits@.len() + 1int,
            files: self.files.deep_view(),
            row_files: rows_view(self.view.rows@).map_values(|r: RowView| row_file_spec(r)),
            commits_area: self.commits_area,
            files_area: self.files_area,
            diff_area: self.diff_area,
            commit_hits: self.commit_hits@,
            file_hits: self.file_hits@,
        }
    }

    pub open spec fn wf(&self) -> bool {
        &&& self.commits@.len() < usize::MAX
        &&& nav_ok(self.nav, self.ctx())
    }

    /// Everything but the navigation state is as in `other`.
    pub open spec fn keeps_data(&self, other: Browser) -> bool {
        &&& self.paths == other.paths
        &&& self.commits == other.commits
        &&& self.view == other.view
        &&& self.files == other.files
        &&& self.status == other.status
        &&& self.commits_area == other.commits_area
        &&& self.files_area == other.files_area
        &&& self.diff_area == other.diff_area
        &&& self.commit_hits == other.commit_hits
        &&& self.file_hits == other.file_hits
    }

    /// A viewer on the worktree entry of the log, with nothing loaded.
    pub fn new(paths: Vec<String>, commits: Vec<Commit>) -> (b: Browser)
        requires
            commits@.len() < usize::MAX,
        ensures
            b.wf(),
            b.paths == paths,
            b.commits == commits,
            b.nav == (Nav {
                log_idx: 0,
                anchor: None,
                focus: Focus::Commits,
                file_idx: 0,
                file_selected: false,
                scroll: 0,
                inline: false,
                click_start: None,
            }),
            b.files@.len() == 0,
            b.view.rows@.len() == 0,
            b.status@.len() == 0,
            b.commit_hits@.len() == 0,
            b.file_hits@.len() == 0,
    {
        let empty = Area { x: 0, y: 0, width: 0, height: 0 };
        Browser {
            paths,
            commits,
            nav: Nav {
                log_idx: 0,
                anchor: None,
                focus: Focus::Commits,
                file_idx: 0,
                file_selected: false,
                scroll: 0,
                inline: false,
                click_start: None,
            },
            view: SideBySide { left_title: String::new(), right_title: String::new(), rows: Vec::new() },
            files: Vec::new(),
            status: String::new(),
            commits_area: empty,
            files_area: empty,
            diff_area: empty,
            commit_hits: Vec::new(),
            file_hits: Vec::new(),
        }
    }

    /// Entries of the log: the worktree, then each commit.
    pub fn log_len(&self) -> (n: usize)
        requires
            self.wf(),
        ensures
            n == self.commits@.len() + 1,
    {
        self.commits.len() + 1
    }

    /// The selected range of log entries, lowest first.
    pub fn range(&self) -> (r: (usize, usize))
        ensures
            (r.0 as int, r.1 as int) == range_of(self.nav),
    {
        match self.nav.anchor {
            Some(a) => if a <= self.nav.log_idx {
                (a, self.nav.log_idx)
            } else {
                (self.nav.log_idx, a)
            },
            None => (self.nav.log_idx, self.nav.log_idx),
        }
    }

    fn first_row_of(&self, name: &str) -> (k: usize)
        ensures
            k as int == first_row(self.ctx().row_files, name@, 0),
    {
        let ghost rf = self.ctx().row_files;
        let mut k: usize = 0;
        while k < self.view.rows.len()
            invariant
                k <= self.view.rows@.len(),
                rf == self.ctx().row_files,
                rf.len() == self.view.rows@.len(),
                first_row(rf, name@, 0) == first_row(rf, name@, k as int),
            decreases self.view.rows@.len() - k,
        {
            let f = row_file(&self.view.rows[k]);
            assert(rf[k as int] == row_file_spec(self.view.rows@[k as int]@));
            if str_eq(f.as_str(), name) {
                return k;
            }
            k = k + 1;
        }
        0
    }

    /// Selects file `idx` (clamped to the list) and scrolls the diff to the
    /// file's first row; nothing when there are no files.
    pub fn select_file(&mut self, idx: usize)
        requires
            old(self).wf(),
        ensures
            final(self).wf(),
            final(self).keeps_data(*old(self)),
            final(self).nav == select_file_spec(old(self).nav, old(self).ctx(), idx as int),
    {
        if self.files.len() == 0 {
            return;
        }
        let f = if idx < self.files.len() {
            idx
        } else {
            self.files.len() - 1
        };
        assert(self.files.deep_view()[f as int] == self.files@[f as int]@);
        let k = self.first_row_of(self.files[f].as_str());
        self.nav = Nav { file_idx: f, file_selected: true, scroll: k, ..self.nav };
    }

    /// Selects log entry `idx` (clamped to the log); with `keep_range` the
    /// selection extends the range. Reload when the selection changed.
    pub fn select_log(&mut self, idx: usize, keep_range: bool) -> (s: Step)
        requires
            old(self).wf(),
        ensures
            final(self).wf(),
            final(self).keeps_data(*old(self)),
            (final(self).nav, s) == select_log_spec(old(self).nav, old(self).ctx(), idx as int, keep_range),
    {
        let n = self.commits.len() + 1;
        let i = if idx <= n - 1 {
            idx
        } else {
            n - 1
        };
        let anchor = if keep_range {
            match self.nav.anchor {
                Some(a) => Some(a),
                None => Some(self.nav.log_idx),
            }
        } else {
            None
        };
        let same_anchor = match (self.nav.anchor, anchor) {
            (Some(a), Some(b)) => a == b,
            (None, None) => true,
            _ => false,
        };
        if self.nav.log_idx == i && same_anchor {
            Step::Stay
        } else {
            self.nav = Nav { log_idx: i, anchor, ..self.nav };
            Step::Reload
        }
    }

    fn move_log(&mut self, delta: i64, keep_range: bool) -> (s: Step)
        requires
            old(self).wf(),
            -100 <= delta <= 100,
        ensures
            final(self).wf(),
            final(self).keeps_data(*old(self)),
            (final(self).nav, s) == move_log_spec(old(self).nav, old(self).ctx(), delta as int, keep_range),
    {
        let n = self.commits.len() + 1;
        let next: usize = if delta < 0 {
            let d = (0 - delta) as usize;
            if self.nav.log_idx < d {
                0
            } else {
                self.nav.log_idx - d
            }
        } else {
            let d = delta as usize;
            if self.nav.log_idx >= n - 1 || n - 1 - self.nav.log_idx < d {
                n - 1
            } else {
                self.nav.log_idx + d
            }
        };
        assert(next as int == clamp(self.nav.log_idx + delta, 0, n - 1));
        self.select_log(next, keep_range)
    }

    fn move_files(&mut self, delta: i64)
        requires
            old(self).wf(),
            -100 <= delta <= 100,
        ensures
            final(self).wf(),
            final(self).keeps_data(*old(self)),
            final(self).nav == move_files_spec(old(self).nav, old(self).ctx(), delta as int),
    {
        let n = self.files.len();
        if n == 0 {
            return;
        }
        let next: usize = if delta < 0 {
            let d = (0 - delta) as usize;
            if self.nav.file_idx < d {
                0
            } else {
                self.nav.file_idx - d
            }
        } else {
            let d = delta as usize;
            if self.nav.file_idx >= n - 1 || n - 1 - self.nav.file_idx < d {
                n - 1
            } else {
                self.nav.file_idx + d
            }
        };
        assert(next as int == clamp(self.nav.file_idx + delta, 0, n - 1));
        self.select_file(next);
    }

    fn scroll_by(&mut self, delta: i64)
        requires
            -100 <= delta <= 100,
        ensures
            final(self).keeps_data(*old(self)),
            final(self).nav == (Nav { scroll: sat_scroll(old(self).nav.scroll, delta as int), ..old(self).nav }),
    {
        let s = if delta < 0 {
            self.nav.scroll.saturating_sub((0 - delta) as usize)
        } else {
            self.nav.scroll.saturating_add(delta as usize)
        };
        self.nav = Nav { scroll: s, ..self.nav };
    }

    fn move_by(&mut self, delta: i64) -> (s: Step)
        requires
            old(self).wf(),
            -100 <= delta <= 100,
        ensures
            final(self).wf(),
            final(self).keeps_data(*old(self)),
            (final(self).nav, s) == move_by_spec(old(self).nav, old(self).ctx(), delta as int),
    {
        match self.nav.focus {
            Focus::Commits => self.move_log(delta, false),
            Focus::Files => {
                self.move_files(delta);
                Step::Stay
            },
            Focus::Diff => {
                self.scroll_by(delta);
                Step::Stay
            },
        }
    }

    fn move_home(&mut self) -> (s: Step)
        requires
            old(self).wf(),
        ensures
            final(self).wf(),
            final(self).keeps_data(*old(self)),
            (final(self).nav, s) == move_home_spec(old(self).nav, old(self).ctx()),
    {
        match self.nav.focus {
            Focus::Commits => self.select_log(0, false),
            Focus::Files => {
                self.select_file(0);
                Step::Stay
            },
            Focus::Diff => {
                self.nav = Nav { scroll: 0, ..self.nav };
                Step::Stay
            },
        }
    }

    fn move_end(&mut self) -> (s: Step)
        requires
            old(self).wf(),
        ensures
            final(self).wf(),
            final(self).keeps_data(*old(self)),
            (final(self).nav, s) == move_end_spec(old(self).nav, old(self).ctx()),
    {
        match self.nav.focus {
            Focus::Commits => {
                let n = self.commits.len() + 1;
                self.select_log(n - 1, false)
            },
            Focus::Files => {
                if self.files.len() > 0 {
                    self.select_file(self.files.len() - 1);
                }
                Step::Stay
            },
            Focus::Diff => {
                self.nav = Nav { scroll: usize::MAX / 4, ..self.nav };
                Step::Stay
            },
        }
    }

    fn page(&mut self, down: bool) -> (s: Step)
        requires
            old(self).wf(),
        ensures
            final(self).wf(),
            final(self).keeps_data(*old(self)),
            (final(self).nav, s) == page_spec(old(self).nav, old(self).ctx(), down),
    {
        let sign: i64 = if down {
            1
        } else {
            -1
        };
        match self.nav.focus {
            Focus::Diff => {
                self.scroll_by(20 * sign);
                Step::Stay
            },
            Focus::Commits => self.move_log(10 * sign, false),
            Focus::Files => {
                self.move_files(10 * sign);
                Step::Stay
            },
        }
    }

    fn extend(&mut self, delta: i64) -> (s: Step)
        requires
            old(self).wf(),
            -100 <= delta <= 100,
        ensures
            final(self).wf(),
            final(self).keeps_data(*old(self)),
            (final(self).nav, s) == extend_spec(old(self).nav, old(self).ctx(), delta as int),
    {
        if self.nav.anchor.is_none() {
            self.nav = Nav { anchor: Some(self.nav.log_idx), ..self.nav };
        }
        self.move_log(delta, true)
    }

    /// Responds to a key as [`key_spec`] says.
    pub fn handle_key(&mut self, key: Key) -> (s: Step)
        requires
            old(self).wf(),
        ensures
            final(self).wf(),
            final(self).keeps_data(*old(self)),
            (final(self).nav, s) == key_spec(old(self).nav, old(self).ctx(), key),
    {
        if !key.press {
            return Step::Stay;
        }
        let ctrl_c = match key.code {
            KeyCode::Char(ch) => ch == 'c',
            _ => false,
        };
        if key.ctrl && ctrl_c {
            return Step::Quit;
        }
        match key.code {
            KeyCode::Esc => Step::Quit,
            KeyCode::Tab => {
                let f = match self.nav.focus {
                    Focus::Commits => Focus::Files,
                    Focus::Files => Focus::Diff,
                    Focus::Diff => Focus::Commits,
                };
                self.nav = Nav { focus: f, ..self.nav };
                Step::Stay
            },
            KeyCode::Down => self.move_by(1),
            KeyCode::Up => self.move_by(-1),
            KeyCode::Home => self.move_home(),
            KeyCode::End => self.move_end(),
            KeyCode::PageDown => self.page(true),
            KeyCode::PageUp => self.page(false),
            KeyCode::Other => Step::Stay,
            KeyCode::Char(ch) => {
                if ch == 'q' {
                    Step::Quit
                } else if ch == 'v' {
                    let a = if self.nav.anchor.is_some() {
                        None
                    } else {
                        Some(self.nav.log_idx)
                    };
                    self.nav = Nav { anchor: a, ..self.nav };
                    Step::Reload
                } else if ch == 'J' {
                    self.extend(1)
                } else if ch == 'K' {
                    self.extend(-1)
                } else if ch == 'd' {
                    self.nav = Nav { inline: !self.nav.inline, ..self.nav };
                    Step::Stay
                } else if ch == 'j' {
                    self.move_by(1)
                } else if ch == 'k' {
                    self.move_by(-1)
                } else if ch == 'g' {
                    self.move_home()
                } else if ch == 'G' {
                    self.move_end()
                } else {
                    Step::Stay
                }
            },
        }
    }

    fn wheel(&mut self, m: Mouse, down: bool) -> (s: Step)
        requires
            old(self).wf(),
        ensures
            final(self).wf(),
            final(self).keeps_data(*old(self)),
            (final(self).nav, s) == wheel_spec(old(self).nav, old(self).ctx(), m, down),
    {
        let sign: i64 = if down {
            1
        } else {
            -1
        };
        if self.commits_area.contains(m.column, m.row) {
            self.nav = Nav { focus: Focus::Commits, ..self.nav };
            self.move_log(sign, false)
        } else if self.files_area.contains(m.column, m.row) {
            self.nav = Nav { focus: Focus::Files, ..self.nav };
            self.move_files(sign);
            Step::Stay
        } else if self.diff_area.contains(m.column, m.row) {
            self.nav = Nav { focus: Focus::Diff, ..self.nav };
            self.scroll_by(3 * sign);
            Step::Stay
        } else {
            Step::Stay
        }
    }

    /// Responds to the mouse as [`mouse_spec`] says.
    pub fn handle_mouse(&mut self, m: Mouse) -> (s: Step)
        requires
            old(self).wf(),
        ensures
            final(self).wf(),
            final(self).keeps_data(*old(self)),
            (final(self).nav, s) == mouse_spec(old(self).nav, old(self).ctx(), m),
    {
        match m.kind {
            MouseKind::LeftDown => {
                if self.commits_area.contains(m.column, m.row) {
                    match list_index_at_row(&self.commit_hits, m.row) {
                        Some(i) => {
                            self.nav = Nav { focus: Focus::Commits, click_start: Some(i), ..self.nav };
                            self.select_log(i, m.shift)
                        },
                        None => Step::Stay,
                    }
                } else if self.files_area.contains(m.column, m.row) {
                    match list_index_at_row(&self.file_hits, m.row) {
                        Some(i) => {
                            self.nav = Nav { focus: Focus::Files, ..self.nav };
                            self.select_file(i);
                            Step::Stay
                        },
                        None => Step::Stay,
                    }
                } else if self.diff_area.contains(m.column, m.row) {
                    self.nav = Nav { focus: Focus::Diff, ..self.nav };
                    Step::Stay
                } else {
                    Step::Stay
                }
            },
            MouseKind::LeftUp => {
                let mut s = Step::Stay;
                if self.commits_area.contains(m.column, m.row) && self.nav.click_start.is_none() {
                    match list_index_at_row(&self.commit_hits, m.row) {
                        Some(i) => {
                            self.nav = Nav { focus: Focus::Commits, ..self.nav };
                            s = self.select_log(i, m.shift);
                        },
                        None => {},
                    }
                }
                self.nav = Nav { click_start: None, ..self.nav };
                s
            },
            MouseKind::LeftDrag => {
                if m.shift && self.commits_area.contains(m.column, m.row) {
                    match list_index_at_row(&self.commit_hits, m.row) {
                        Some(i) => {
                            self.nav = Nav { focus: Focus::Commits, ..self.nav };
                            self.select_log(i, true)
                        },
                        None => Step::Stay,
                    }
                } else {
                    Step::Stay
                }
            },
            MouseKind::ScrollDown => self.wheel(m, true),
            MouseKind::ScrollUp => self.wheel(m, false),
            MouseKind::Other => Step::Stay,
        }
    }
}

/// A title as shown: a diff's default title gives way to the fallback.
pub open spec fn shown_title(t: Seq<char>, default: Seq<char>, fallback: Seq<char>) -> Seq<char> {
    if t == default {
        fallback
    } else {
        t
    }
}

/// `rows - max(page, 1)`, or 0.
pub open spec fn max_scroll_of(rows: int, page: int) -> int {
    let p = if page < 1 {
        1
    } else {
        page
    };
    if rows > p {
        rows - p
    } else {
        0
    }
}

/// Whether log entry `idx` is drawn as part of a range `lo..=hi` of more
/// than one entry.
pub open spec fn in_drawn_range(idx: int, lo: int, hi: int) -> bool {
    lo <= idx <= hi && lo != hi
}

pub fn highlighted(idx: usize, lo: usize, hi: usize) -> (r: bool)
    ensures
        r == in_drawn_range(idx as int, lo as int, hi as int),
{
    idx >= lo && idx <= hi && lo != hi
}

/// Label of a log entry: `WORKTREE`, or the commit's hash and subject.
pub open spec fn entry_label(commits: Seq<crate::view::CommitView>, idx: int) -> Seq<char> {
    if idx == 0 {
        "WORKTREE"@
    } else if 0 <= idx - 1 < commits.len() {
        commits[idx - 1].hash + " "@ + commits[idx - 1].subject
    } else {
        Seq::empty()
    }
}

impl Browser {
    /// Shows `view`, the fallback titles standing in for a diff's default
    /// `old` and `new`; its changed files become the file list, the first
    /// of them selected, and the diff is shown from its first row.
    pub fn set_view(&mut self, view: SideBySide, fallback_l: String, fallback_r: String)
        requires
            old(self).wf(),
        ensures
            final(self).wf(),
            final(self).view.left_title@ == shown_title(view.left_title@, "old"@, fallback_l@),
            final(self).view.right_title@ == shown_title(view.right_title@, "new"@, fallback_r@),
            final(self).view.rows == view.rows,
            final(self).files.deep_view() == changed_files_spec(rows_view(view.rows@), 0, Seq::empty()),
            final(self).nav == (Nav {
                file_idx: 0,
                scroll: 0,
                file_selected: final(self).files@.len() > 0,
                ..old(self).nav
            }),
            final(self).paths == old(self).paths,
            final(self).commits == old(self).commits,
            final(self).status == old(self).status,
            final(self).commits_area == old(self).commits_area,
            final(self).files_area == old(self).files_area,
            final(self).diff_area == old(self).diff_area,
            final(self).commit_hits == old(self).commit_hits,
            final(self).file_hits == old(self).file_hits,
    {
        let mut view = view;
        proof {
            reveal_strlit("old");
            reveal_strlit("new");
        }
        if str_eq(view.left_title.as_str(), "old") {
            view.left_title = fallback_l;
        }
        if str_eq(view.right_title.as_str(), "new") {
            view.right_title = fallback_r;
        }
        self.files = changed_files(&view.rows);
        let any = self.files.len() > 0;
        self.nav = Nav { file_idx: 0, scroll: 0, file_selected: any, ..self.nav };
        self.view = view;
    }

    /// The revisions and titles of the selected range, when it has them.
    pub fn pending_diff(&self) -> (r: Option<(Vec<String>, String, String)>)
        ensures
            match r {
                Some((revs, a, b)) => revs_for(commits_view(self.commits@), range_of(self.nav).0, range_of(self.nav).1) == Some((revs.deep_view(), a@, b@)),
                None => revs_for(commits_view(self.commits@), range_of(self.nav).0, range_of(self.nav).1) is None,
            },
    {
        let (lo, hi) = self.range();
        diff_revs(&self.commits, lo, hi)
    }

    /// A single root commit has no parent to compare with: an empty diff
    /// and a message saying so.
    pub fn show_root(&mut self)
        requires
            old(self).wf(),
        ensures
            final(self).wf(),
            final(self).status@ == "root commit \u{2014} no parent"@,
            final(self).view.rows@.len() == 0,
            final(self).files@.len() == 0,
            final(self).view.left_title@.len() == 0,
            final(self).view.right_title@.len() == 0,
            final(self).commits == old(self).commits,
            final(self).nav.log_idx == old(self).nav.log_idx,
            final(self).nav.anchor == old(self).nav.anchor,
    {
        self.status = owned("root commit \u{2014} no parent");
        let v = parse_diff("");
        proof {
            reveal_strlit("");
            assert(crate::diff::lines_of(""@) =~= Seq::<Seq<char>>::empty());
        }
        self.set_view(v, String::new(), String::new());
    }

    /// Shows the diff loaded for the range, clearing the message.
    pub fn show(&mut self, view: SideBySide, left: String, right: String)
        requires
            old(self).wf(),
        ensures
            final(self).wf(),
            final(self).status@.len() == 0,
            final(self).view.left_title@ == shown_title(view.left_title@, "old"@, left@),
            final(self).view.right_title@ == shown_title(view.right_title@, "new"@, right@),
            final(self).view.rows == view.rows,
            final(self).files.deep_view() == changed_files_spec(rows_view(view.rows@), 0, Seq::empty()),
            final(self).commits == old(self).commits,
            final(self).nav.log_idx == old(self).nav.log_idx,
            final(self).nav.anchor == old(self).nav.anchor,
    {
        self.status = String::new();
        self.set_view(view, left, right);
    }

    /// Loading the diff failed: an empty diff under the range's titles and
    /// the error as the message.
    pub fn show_error(&mut self, message: String, left: String, right: String)
        requires
            old(self).wf(),
        ensures
            final(self).wf(),
            final(self).status == message,
            final(self).view.rows@.len() == 0,
            final(self).files@.len() == 0,
            final(self).view.left_title@ == left@,
            final(self).view.right_title@ == right@,
            final(self).commits == old(self).commits,
            final(self).nav.log_idx == old(self).nav.log_idx,
            final(self).nav.anchor == old(self).nav.anchor,
    {
        self.status = message;
        let v = parse_diff("");
        proof {
            reveal_strlit("");
            assert(crate::diff::lines_of(""@) =~= Seq::<Seq<char>>::empty());
        }
        self.set_view(v, left, right);
    }

    /// Records where the panels and the visible list rows were drawn.
    pub fn set_layout(
        &mut self,
        commits_area: Area,
        files_area: Area,
        diff_area: Area,
        commit_hits: Vec<(u16, usize)>,
        file_hits: Vec<(u16, usize)>,
    )
        requires
            old(self).wf(),
        ensures
            final(self).wf(),
            final(self).nav == old(self).nav,
            final(self).commits_area == commits_area,
            final(self).files_area == files_area,
            final(self).diff_area == diff_area,
            final(self).commit_hits == commit_hits,
            final(self).file_hits == file_hits,
            final(self).paths == old(self).paths,
            final(self).commits == old(self).commits,
            final(self).view == old(self).view,
            final(self).files == old(self).files,
            final(self).status == old(self).status,
    {
        self.commits_area = commits_area;
        self.files_area = files_area;
        self.diff_area = diff_area;
        self.commit_hits = commit_hits;
        self.file_hits = file_hits;
    }

    /// The last first row that still fills a page of `page` rows.
    pub fn max_scroll(&self, page: usize) -> (m: usize)
        ensures
            m as int == max_scroll_of(self.view.rows@.len() as int, page as int),
    {
        let p = if page < 1 {
            1
        } else {
            page
        };
        self.view.rows.len().saturating_sub(p)
    }

    /// Keeps the diff's first shown row within [`Browser::max_scroll`].
    pub fn clamp_scroll(&mut self, page: usize)
        requires
            old(self).wf(),
        ensures
            final(self).wf(),
            final(self).keeps_data(*old(self)),
            final(self).nav == (Nav {
                scroll: if old(self).nav.scroll > max_scroll_of(old(self).view.rows@.len() as int, page as int) {
                    max_scroll_of(old(self).view.rows@.len() as int, page as int) as usize
                } else {
                    old(self).nav.scroll
                },
                ..old(self).nav
            }),
    {
        let m = self.max_scroll(page);
        if self.nav.scroll > m {
            self.nav = Nav { scroll: m, ..self.nav };
        }
    }

    /// Label of the selected log entry.
    pub fn selected_label(&self) -> (s: String)
        ensures
            s@ == entry_label(commits_view(self.commits@), self.nav.log_idx as int),
    {
        if self.nav.log_idx == 0 {
            return owned("WORKTREE");
        }
        if self.nav.log_idx - 1 < self.commits.len() {
            let c = &self.commits[self.nav.log_idx - 1];
            assert(commits_view(self.commits@)[self.nav.log_idx - 1] == c@);
            let mut s = c.hash.clone();
            push_str(&mut s, " ");
            push_str(&mut s, c.subject.as_str());
            s
        } else {
            String::new()
        }
    }

    /// What the diff panel shows when the diff has no rows.
    pub fn empty_message(&self) -> (s: String)
        ensures
            s@ == (if self.status@.len() == 0 {
                "No outline change\n"@ + self.view.left_title@ + " \u{2192} "@ + self.view.right_title@
            } else {
                self.status@
            }),
    {
        if self.status.as_str().unicode_len() == 0 {
            let mut s = owned("No outline change\n");
            push_str(&mut s, self.view.left_title.as_str());
            push_str(&mut s, " \u{2192} ");
            push_str(&mut s, self.view.right_title.as_str());
            s
        } else {
            self.status.clone()
        }
    }

    /// The status line under the diff: the selection, the titles, the
    /// number of rows and the layout.
    pub fn footer(&self) -> (s: String)
        ensures
            s@ == " "@ + entry_label(commits_view(self.commits@), self.nav.log_idx as int) + "  "@
                + self.view.left_title@ + " \u{2192} "@ + self.view.right_title@ + "  ("@ + decimal(
                self.view.rows@.len() as nat,
            ) + " lines, "@ + (if self.nav.inline {
                "inline"@
            } else {
                "side"@
            }) + ") "@,
    {
        let mut s = owned(" ");
        let label = self.selected_label();
        push_str(&mut s, label.as_str());
        push_str(&mut s, "  ");
        push_str(&mut s, self.view.left_title.as_str());
        push_str(&mut s, " \u{2192} ");
        push_str(&mut s, self.view.right_title.as_str());
        push_str(&mut s, "  (");
        push_decimal(&mut s, self.view.rows.len());
        push_str(&mut s, " lines, ");
        if self.nav.inline {
            push_str(&mut s, "inline");
        } else {
            push_str(&mut s, "side");
        }
        push_str(&mut s, ") ");
        s
    }
}

} // verus!
