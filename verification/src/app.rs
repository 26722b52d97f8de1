//! The state of the interactive view: the grouped table, which row is
//! selected, which group is expanded, and how groups are sorted.
use vstd::prelude::*;
use crate::group::{
    AppGroup, GroupMode, group_processes, grouped, roots_possible, rss_of, sums_fit, swap_of,
};
use crate::scanner::{ProcessMemory, SystemMemory};
use crate::sort::{seq_sum, stable_sort, stable_sort_of, total_preorder};
use crate::cli::{all_with_swap, apply_swap};
use crate::text::{
    chars_of, concat, decimal, lemma_lex_total, lemma_lex_trans, lex_le, lex_le_chars, push_decimal,
    string_of,
};

verus! {

// ─── Visual row mapping ────────────────────────────────────────────────────

/// Maps a visual table row to (group index, process index within the group,
/// or `None` for the group's own row).
pub struct RowMap {
    pub entries: Vec<(usize, Option<usize>)>,
}

impl RowMap {
    /// No rows.
    pub fn new() -> (r: Self)
        ensures
            r.entries@.len() == 0,
    {
        RowMap { entries: Vec::new() }
    }
}

/// The selected row of a table, if any.
pub struct Selection {
    pub selected: Option<usize>,
}

impl Selection {
    /// Nothing selected.
    pub fn new() -> (r: Self)
        ensures
            r.selected is None,
    {
        Selection { selected: None }
    }

    /// The selected row.
    pub fn selected(&self) -> (r: Option<usize>)
        ensures
            r == self.selected,
    {
        self.selected
    }

    /// Selects a row, or none.
    pub fn select(&mut self, row: Option<usize>)
        ensures
            final(self).selected == row,
    {
        self.selected = row;
    }
}

/// Where the process table stands on the screen.
#[derive(Clone, Copy)]
pub struct TableArea {
    pub x: u16,
    pub y: u16,
    pub width: u16,
    pub height: u16,
}

// ─── Sort ──────────────────────────────────────────────────────────────────

/// The column that groups are sorted by.
#[derive(Debug, Clone, Copy, PartialEq, Eq, Structural)]
pub enum SortColumn {
    Name,
    Physical,
    Swap,
    Total,
}

/// `a` comes before or ties with `b` in ascending order of the column.
pub open spec fn column_le(col: SortColumn, a: AppGroup, b: AppGroup) -> bool {
    match col {
        SortColumn::Name => lex_le(a.name@, b.name@),
        SortColumn::Physical => a.total_rss <= b.total_rss,
        SortColumn::Swap => a.total_swap <= b.total_swap,
        SortColumn::Total => a.spec_total() <= b.spec_total(),
    }
}

/// The order of the table: by the column, ascending, or descending when `desc`.
pub open spec fn sort_order(col: SortColumn, desc: bool) -> spec_fn(AppGroup, AppGroup) -> bool {
    |a: AppGroup, b: AppGroup|
        if desc {
            column_le(col, b, a)
        } else {
            column_le(col, a, b)
        }
}

proof fn lemma_sort_order(col: SortColumn, desc: bool)
    ensures
        total_preorder(sort_order(col, desc)),
{
    let le = sort_order(col, desc);
    assert forall|a: AppGroup, b: AppGroup| #[trigger] le(a, b) || le(b, a) by {
        lemma_lex_total(a.name@, b.name@);
    }
    assert forall|a: AppGroup, b: AppGroup, c: AppGroup| #[trigger] le(a, b) && #[trigger] le(b, c)
        implies le(a, c) by {
        if col == SortColumn::Name {
            if desc {
                lemma_lex_trans(c.name@, b.name@, a.name@);
            } else {
                lemma_lex_trans(a.name@, b.name@, c.name@);
            }
        }
    }
}

fn column_before(col: SortColumn, a: &AppGroup, b: &AppGroup) -> (r: bool)
    ensures
        r == column_le(col, *a, *b),
{
    match col {
        SortColumn::Name => lex_le_chars(&crate::text::chars_of(a.name.as_str()), &crate::text::chars_of(b.name.as_str())),
        SortColumn::Physical => a.total_rss <= b.total_rss,
        SortColumn::Swap => a.total_swap <= b.total_swap,
        SortColumn::Total => a.total() <= b.total(),
    }
}

// ─── Navigation ────────────────────────────────────────────────────────────

/// The row selected after moving down among `len` rows: the next one,
/// wrapping to the first; the first when nothing was selected.
pub open spec fn next_row(sel: Option<usize>, len: nat) -> Option<usize> {
    match sel {
        Some(i) => Some(((i + 1) % (len as int)) as usize),
        None => Some(0),
    }
}

/// The row selected after moving up among `len` rows: the previous one,
/// wrapping to the last; the first when nothing was selected.
pub open spec fn prev_row(sel: Option<usize>, len: nat) -> Option<usize> {
    match sel {
        Some(i) => Some(
            if i == 0 {
                (len - 1) as usize
            } else {
                (i - 1) as usize
            },
        ),
        None => Some(0),
    }
}

// ─── App state ─────────────────────────────────────────────────────────────

/// Two left clicks on the same row at most this many milliseconds apart are a double click.
pub const DOUBLE_CLICK_MS: u64 = 400;

/// The state of the interactive view.
pub struct App {
    pub should_quit: bool,
    pub group_mode: GroupMode,
    pub home: String,
    pub system_memory: Option<SystemMemory>,
    pub groups: Vec<AppGroup>,
    pub all_processes: Vec<ProcessMemory>,
    pub group_state: Selection,
    pub proc_state: Selection,
    pub expanded_group: Option<usize>,
    pub row_map: RowMap,
    pub table_area: TableArea,
    pub sort_column: SortColumn,
    pub sort_desc: bool,
    pub is_loading: bool,
    pub scan_progress: Option<(usize, usize)>,
    pub deep_scan_progress: Option<(usize, usize)>,
    pub status_message: Option<String>,
    pub detail_view_open: bool,
    pub spinner_idx: usize,
    pub total_phys: u64,
    pub total_swap: u64,
    pub last_click: Option<(u64, u16)>,
}

/// A key press, as the view distinguishes them.
pub enum Key {
    Char(char),
    Up,
    Down,
    Enter,
    Esc,
    Tab,
    Other,
}

/// A mouse event; `at_ms` is a monotonic timestamp in milliseconds.
pub enum Mouse {
    ScrollUp,
    ScrollDown,
    LeftDown { row: u16, col: u16, at_ms: u64 },
    RightDown,
    Other,
}

/// What the event loop has to do after an input.
pub enum Action {
    Nothing,
    /// Fetch the metadata of this process for the detail popup.
    ShowDetail(ProcessMemory),
    /// Kill this pid.
    Kill(i32),
    /// Start a full rescan.
    Rescan,
}

/// A result of the background scan.
pub enum ScanUpdate {
    SystemMemory(SystemMemory),
    Processes(Vec<ProcessMemory>),
    /// Measured swap per pid; a later entry for a pid wins.
    SwapBatch(Vec<(i32, u64)>),
    Done,
}

/// The expanded group and process selection after moving to visual row
/// `idx`: a process row expands its group and selects the process; a group
/// row clears the process selection; a row past the end changes nothing.
pub open spec fn sync_result(old: App, idx: int) -> (Option<usize>, Option<usize>) {
    if 0 <= idx < old.row_map.entries@.len() {
        let (gi, pi) = old.row_map.entries@[idx];
        match pi {
            Some(p) => (Some(gi), Some(p)),
            None => (old.expanded_group, None),
        }
    } else {
        (old.expanded_group, old.proc_state.selected)
    }
}

/// `new` is `old` with row `sel` selected and synced.
pub open spec fn selected_to(old: App, new: App, sel: usize) -> bool {
    let (e, p) = sync_result(old, sel as int);
    new == App {
        group_state: Selection { selected: Some(sel) },
        expanded_group: e,
        proc_state: Selection { selected: p },
        ..old
    }
}

/// Moving the selection down, wrapping; no change on an empty table.
pub open spec fn moved_down(old: App, new: App) -> bool {
    let len = old.row_map.entries@.len();
    if len == 0 {
        new == old
    } else {
        selected_to(old, new, next_row(old.group_state.selected, len)->0)
    }
}

/// Moving the selection up, wrapping; no change on an empty table.
pub open spec fn moved_up(old: App, new: App) -> bool {
    let len = old.row_map.entries@.len();
    if len == 0 {
        new == old
    } else {
        selected_to(old, new, prev_row(old.group_state.selected, len)->0)
    }
}

/// Collapsing the selected row's group if expanded, else expanding it with
/// its first process selected; no change without a selected row.
pub open spec fn expand_toggled(old: App, new: App) -> bool {
    match old.selected_row() {
        Some((gi, _)) => if old.expanded_group == Some(gi) {
            new == App { expanded_group: None, proc_state: Selection { selected: None }, ..old }
        } else {
            new == App {
                expanded_group: Some(gi),
                proc_state: Selection { selected: Some(0usize) },
                ..old
            }
        },
        None => new == old,
    }
}

/// The table row under screen row `row`, if the click lands on one.
pub open spec fn row_under(old: App, row: u16) -> Option<usize> {
    let top = old.table_area.y + 3;
    if row < top || row - top >= old.row_map.entries@.len() {
        None
    } else {
        Some((row - top) as usize)
    }
}

/// A click at screen row `row` selects the table row under it, if any.
pub open spec fn clicked(old: App, new: App, row: u16) -> bool {
    match row_under(old, row) {
        Some(i) => selected_to(old, new, i),
        None => new == old,
    }
}

/// The groups stably sorted by `col`, descending when `desc`, which become
/// the sort settings.
pub open spec fn resorted(old: App, new: App, col: SortColumn, desc: bool) -> bool {
    &&& stable_sort_of(new.groups@, old.groups@, sort_order(col, desc))
    &&& new == App { groups: new.groups, sort_column: col, sort_desc: desc, ..old }
}

/// Totals and groups recomputed from `procs` in `mode`, for some possible project roots.
pub open spec fn regrouped(procs: Seq<ProcessMemory>, mode: GroupMode, home: Seq<char>, new: App) -> bool {
    &&& new.total_phys == seq_sum(procs, rss_of())
    &&& new.total_swap == seq_sum(procs, swap_of())
    &&& exists|roots: Seq<Option<Seq<char>>>|
        roots_possible(procs, home, roots) && grouped(procs, mode, home, roots, new.groups@)
}

/// The other grouping mode.
pub open spec fn other_mode(m: GroupMode) -> GroupMode {
    match m {
        GroupMode::Project => GroupMode::App,
        GroupMode::App => GroupMode::Project,
    }
}

/// The mode switched and the scanned processes regrouped; nothing expanded,
/// no process selected, the first row selected when there are groups.
pub open spec fn mode_cycled(old: App, new: App) -> bool {
    &&& regrouped(old.all_processes@, other_mode(old.group_mode), old.home@, new)
    &&& new == App {
        group_mode: other_mode(old.group_mode),
        groups: new.groups,
        total_phys: new.total_phys,
        total_swap: new.total_swap,
        expanded_group: None,
        proc_state: Selection { selected: None },
        group_state: Selection {
            selected: if new.groups@.len() > 0 {
                Some(0usize)
            } else {
                old.group_state.selected
            },
        },
        ..old
    }
}

/// The process that the selection targets: the selected process, or the
/// first process of the selected group.
pub open spec fn target_of(a: App) -> Option<ProcessMemory> {
    match a.selected_row() {
        Some((gi, pi)) => if gi < a.groups@.len() {
            let ps = a.groups@[gi as int].processes@;
            match pi {
                Some(p) => if p < ps.len() {
                    Some(ps[p as int])
                } else {
                    None
                },
                None => if ps.len() > 0 {
                    Some(ps[0])
                } else {
                    None
                },
            }
        } else {
            None
        },
        None => None,
    }
}

/// The detail popup opened on the target, whose metadata is to be fetched;
/// nothing without a target.
pub open spec fn detail_opened(old: App, new: App, a: Action) -> bool {
    match target_of(old) {
        Some(p) => new == App { detail_view_open: true, ..old } && a == Action::ShowDetail(p),
        None => new == old && a == Action::Nothing,
    }
}

/// A rescan started unless one is running: loading, no groups, no processes,
/// nothing expanded.
pub open spec fn rescan_started(old: App, new: App, a: Action) -> bool {
    if old.is_loading {
        new == old && a == Action::Nothing
    } else {
        &&& new.groups@.len() == 0
        &&& new.all_processes@.len() == 0
        &&& new == App {
            is_loading: true,
            groups: new.groups,
            all_processes: new.all_processes,
            expanded_group: None,
            ..old
        }
        &&& a == Action::Rescan
    }
}

/// Opening a double-clicked row: a process row opens its detail, a group row
/// toggles its expansion.
pub open spec fn row_opened(old: App, new: App, a: Action) -> bool {
    match old.selected_row() {
        Some((_, Some(_))) => detail_opened(old, new, a),
        _ => expand_toggled(old, new) && a == Action::Nothing,
    }
}

/// What a key does. With the detail popup open, `q` and Esc close it and
/// other keys do nothing. Otherwise: `q`/Esc quit; Up/`k` and Down/`j` move;
/// Enter opens a process row's detail or toggles a group; `d` opens the
/// detail; `r` rescans; `x` kills the target; `t`, `p`, `s` sort by total,
/// resident, swap (largest first) and `n` by name; Tab switches the mode.
pub open spec fn key_handled(old: App, key: Key, new: App, a: Action) -> bool {
    if old.detail_view_open {
        &&& a == Action::Nothing
        &&& if key == Key::Char('q') || key == Key::Esc {
            new == App { detail_view_open: false, ..old }
        } else {
            new == old
        }
    } else if key == Key::Char('q') || key == Key::Esc {
        new == App { should_quit: true, ..old } && a == Action::Nothing
    } else if key == Key::Up || key == Key::Char('k') {
        moved_up(old, new) && a == Action::Nothing
    } else if key == Key::Down || key == Key::Char('j') {
        moved_down(old, new) && a == Action::Nothing
    } else if key == Key::Enter {
        row_opened(old, new, a)
    } else if key == Key::Char('d') {
        detail_opened(old, new, a)
    } else if key == Key::Char('r') {
        rescan_started(old, new, a)
    } else if key == Key::Char('x') {
        new == old && a == match target_of(old) {
            Some(p) => Action::Kill(p.pid),
            None => Action::Nothing,
        }
    } else if key == Key::Char('t') {
        resorted(old, new, SortColumn::Total, true) && a == Action::Nothing
    } else if key == Key::Char('p') {
        resorted(old, new, SortColumn::Physical, true) && a == Action::Nothing
    } else if key == Key::Char('s') {
        resorted(old, new, SortColumn::Swap, true) && a == Action::Nothing
    } else if key == Key::Char('n') {
        resorted(old, new, SortColumn::Name, false) && a == Action::Nothing
    } else if key == Key::Tab {
        mode_cycled(old, new) && a == Action::Nothing
    } else {
        new == old && a == Action::Nothing
    }
}

/// Whether a left click at `at_ms` on `row` follows one on the same row
/// within the double-click time.
pub open spec fn is_double(last: Option<(u64, u16)>, at_ms: u64, row: u16) -> bool {
    match last {
        Some((t, r)) => r == row && t <= at_ms && at_ms - t <= DOUBLE_CLICK_MS,
        None => false,
    }
}

/// What a mouse event does: the wheel moves the selection, a right click
/// toggles the selected group, a left click selects the row under it and,
/// as the second of a double click on a table row, opens that row.
pub open spec fn mouse_handled(old: App, m: Mouse, new: App, a: Action) -> bool {
    match m {
        Mouse::ScrollUp => moved_up(old, new) && a == Action::Nothing,
        Mouse::ScrollDown => moved_down(old, new) && a == Action::Nothing,
        Mouse::RightDown => expand_toggled(old, new) && a == Action::Nothing,
        Mouse::LeftDown { row, col, at_ms } => {
            let double = is_double(old.last_click, at_ms, row) && row_under(old, row) is Some;
            exists|mid: App|
                {
                    &&& clicked(old, mid, row)
                    &&& if double {
                        row_opened(
                            App { last_click: None, ..mid },
                            new,
                            a,
                        )
                    } else {
                        new == App { last_click: Some((at_ms, row)), ..mid } && a == Action::Nothing
                    }
                }
        },
        Mouse::Other => new == old && a == Action::Nothing,
    }
}

/// `"Quick scan done — N procs"`.
pub open spec fn quick_scan_text(n: nat) -> Seq<char> {
    "Quick scan done — "@ + decimal(n) + " procs"@
}

/// `"Ready — G apps, P processes"`.
pub open spec fn ready_text(groups: nat, procs: nat) -> Seq<char> {
    "Ready — "@ + decimal(groups) + " apps, "@ + decimal(procs) + " processes"@
}

/// `new` selects the first row when `old` selected nothing and there are groups.
pub open spec fn first_row_if_none(old: App, new: App) -> bool {
    new.group_state.selected == if old.group_state.selected is None && new.groups@.len() > 0 {
        Some(0usize)
    } else {
        old.group_state.selected
    }
}

/// What a scan result does to the view.
pub open spec fn scan_applied(old: App, u: ScanUpdate, new: App) -> bool {
    match u {
        ScanUpdate::SystemMemory(m) => new == App { system_memory: Some(m), ..old },
        ScanUpdate::Processes(ps) => {
            &&& regrouped(ps@, old.group_mode, old.home@, new)
            &&& first_row_if_none(old, new)
            &&& new.status_message matches Some(t) && t@ == quick_scan_text(ps@.len())
            &&& new == App {
                all_processes: new.all_processes,
                groups: new.groups,
                total_phys: new.total_phys,
                total_swap: new.total_swap,
                group_state: new.group_state,
                is_loading: false,
                status_message: new.status_message,
                ..old
            }
            &&& new.all_processes@ == ps@
        },
        ScanUpdate::SwapBatch(b) => {
            let procs = all_with_swap(old.all_processes@, b@);
            &&& new.all_processes@ == procs
            &&& exists|mid: App|
                {
                    &&& regrouped(procs, old.group_mode, old.home@, mid)
                    &&& mid == App {
                        all_processes: new.all_processes,
                        groups: mid.groups,
                        total_phys: mid.total_phys,
                        total_swap: mid.total_swap,
                        ..old
                    }
                    &&& resorted(mid, new, old.sort_column, old.sort_desc)
                }
        },
        ScanUpdate::Done => {
            &&& new.status_message matches Some(t) && t@ == ready_text(
                old.groups@.len(),
                old.all_processes@.len(),
            )
            &&& new == App { is_loading: false, status_message: new.status_message, ..old }
        },
    }
}

/// The copy of a process list.
fn copy_processes(v: &Vec<ProcessMemory>) -> (r: Vec<ProcessMemory>)
    ensures
        r@ == v@,
{
    let mut r: Vec<ProcessMemory> = Vec::new();
    let mut i: usize = 0;
    while i < v.len()
        invariant
            i <= v.len(),
            r@ == v@.take(i as int),
        decreases v.len() - i,
    {
        r.push(v[i].duplicate());
        assert(v@.take(i + 1) =~= v@.take(i as int).push(v@[i as int]));
        i += 1;
    }
    assert(v@.take(v.len() as int) =~= v@);
    r
}

fn text_with_count(before: &str, n: u64, after: &str) -> (r: String)
    ensures
        r@ == before@ + decimal(n as nat) + after@,
{
    let mut v = chars_of(before);
    push_decimal(&mut v, n);
    let v = concat(&v, &chars_of(after));
    string_of(&v)
}

impl App {
    /// An empty view in project mode, sorted by total descending; `home` is
    /// the user's home directory, against which projects are found.
    pub fn new(home: String) -> (r: Self)
        ensures
            r == (App {
                should_quit: false,
                group_mode: GroupMode::Project,
                home: home,
                system_memory: None,
                groups: r.groups,
                all_processes: r.all_processes,
                group_state: Selection { selected: None },
                proc_state: Selection { selected: None },
                expanded_group: None,
                row_map: r.row_map,
                table_area: TableArea { x: 0, y: 0, width: 0, height: 0 },
                sort_column: SortColumn::Total,
                sort_desc: true,
                is_loading: false,
                scan_progress: None,
                deep_scan_progress: None,
                status_message: None,
                detail_view_open: false,
                spinner_idx: 0,
                total_phys: 0,
                total_swap: 0,
                last_click: None,
            }),
            r.groups@.len() == 0,
            r.all_processes@.len() == 0,
            r.row_map.entries@.len() == 0,
    {
        App {
            should_quit: false,
            group_mode: GroupMode::Project,
            home,
            system_memory: None,
            groups: Vec::new(),
            all_processes: Vec::new(),
            group_state: Selection::new(),
            proc_state: Selection::new(),
            expanded_group: None,
            row_map: RowMap::new(),
            table_area: TableArea { x: 0, y: 0, width: 0, height: 0 },
            sort_column: SortColumn::Total,
            sort_desc: true,
            is_loading: false,
            scan_progress: None,
            deep_scan_progress: None,
            status_message: None,
            detail_view_open: false,
            spinner_idx: 0,
            total_phys: 0,
            total_swap: 0,
            last_click: None,
        }
    }

    /// Asks the event loop to stop.
    pub fn quit(&mut self)
        ensures
            *final(self) == (App { should_quit: true, ..*old(self) }),
    {
        self.should_quit = true;
    }

    /// Advances the loading spinner, wrapping around.
    pub fn on_tick(&mut self)
        ensures
            *final(self) == (App {
                spinner_idx: if old(self).spinner_idx == usize::MAX {
                    0
                } else {
                    (old(self).spinner_idx + 1) as usize
                },
                ..*old(self)
            }),
    {
        self.spinner_idx = if self.spinner_idx == usize::MAX {
            0
        } else {
            self.spinner_idx + 1
        };
    }

    /// Moves the selection down one row, wrapping around; nothing when the
    /// table is empty.
    pub fn next_group(&mut self)
        requires
            old(self).group_state.selected != Some(usize::MAX),
        ensures
            moved_down(*old(self), *final(self)),
    {
        let len = self.row_map.entries.len();
        if len == 0 {
            return;
        }
        let i = match self.group_state.selected() {
            Some(i) => (i + 1) % len,
            None => 0,
        };
        self.group_state.select(Some(i));
        self.sync_from_visual(i);
    }

    /// Moves the selection up one row, wrapping around; nothing when the
    /// table is empty.
    pub fn prev_group(&mut self)
        ensures
            moved_up(*old(self), *final(self)),
    {
        let len = self.row_map.entries.len();
        if len == 0 {
            return;
        }
        let i = match self.group_state.selected() {
            Some(i) => if i == 0 {
                len - 1
            } else {
                i - 1
            },
            None => 0,
        };
        self.group_state.select(Some(i));
        self.sync_from_visual(i);
    }

    fn sync_from_visual(&mut self, visual_idx: usize)
        ensures
            ({
                let (e, p) = sync_result(*old(self), visual_idx as int);
                *final(self) == App {
                    expanded_group: e,
                    proc_state: Selection { selected: p },
                    ..*old(self)
                }
            }),
    {
        if visual_idx < self.row_map.entries.len() {
            let (gi, pi) = self.row_map.entries[visual_idx];
            match pi {
                Some(pidx) => {
                    if self.expanded_group != Some(gi) {
                        self.expanded_group = Some(gi);
                    }
                    self.proc_state.select(Some(pidx));
                },
                None => {
                    self.proc_state.select(None);
                },
            }
        }
    }

    /// The (group, process) of the selected row.
    pub open spec fn selected_row(&self) -> Option<(usize, Option<usize>)> {
        match self.group_state.selected {
            Some(i) => if i < self.row_map.entries@.len() {
                Some(self.row_map.entries@[i as int])
            } else {
                None
            },
            None => None,
        }
    }

    /// The (group, process) of the selected row, if a row within the table is selected.
    pub fn selected_process(&self) -> (r: Option<(usize, Option<usize>)>)
        ensures
            r == self.selected_row(),
    {
        let visual_idx = match self.group_state.selected() {
            Some(i) => i,
            None => {
                return None;
            },
        };
        if visual_idx < self.row_map.entries.len() {
            Some(self.row_map.entries[visual_idx])
        } else {
            None
        }
    }

    /// Collapses the selected row's group if it is expanded, else expands it
    /// and selects its first process.
    pub fn toggle_expand(&mut self)
        ensures
            expand_toggled(*old(self), *final(self)),
    {
        if let Some((gi, _pi)) = self.selected_process() {
            if self.expanded_group == Some(gi) {
                self.expanded_group = None;
                self.proc_state.select(None);
            } else {
                self.expanded_group = Some(gi);
                self.proc_state.select(Some(0));
            }
        }
    }

    /// The process that the selection targets.
    pub fn target_process(&self) -> (r: Option<ProcessMemory>)
        ensures
            r == target_of(*self),
    {
        match self.selected_process() {
            Some((gi, pi)) => {
                if gi < self.groups.len() {
                    let ps = &self.groups[gi].processes;
                    match pi {
                        Some(p) => if p < ps.len() {
                            Some(ps[p].duplicate())
                        } else {
                            None
                        },
                        None => if ps.len() > 0 {
                            Some(ps[0].duplicate())
                        } else {
                            None
                        },
                    }
                } else {
                    None
                }
            },
            None => None,
        }
    }

    /// The pid that killing the selection targets.
    pub fn kill_target(&self) -> (r: Option<i32>)
        ensures
            r == match target_of(*self) {
                Some(p) => Some(p.pid),
                None => None,
            },
    {
        match self.target_process() {
            Some(p) => Some(p.pid),
            None => None,
        }
    }

    /// Selects the table row under a click at screen row `row` (the table's
    /// rows start three lines below its top); clicks elsewhere change nothing.
    pub fn click_table(&mut self, row: u16, col: u16)
        requires
            old(self).table_area.y <= u16::MAX - 3,
        ensures
            clicked(*old(self), *final(self), row),
    {
        let header_offset = self.table_area.y + 3;
        if row < header_offset {
            return;
        }
        let visual_idx = (row - header_offset) as usize;
        if visual_idx >= self.row_map.entries.len() {
            return;
        }
        self.group_state.select(Some(visual_idx));
        self.sync_from_visual(visual_idx);
    }

    /// Moves the selection up or down one row, as the mouse wheel does.
    pub fn scroll_table(&mut self, up: bool)
        requires
            !up ==> old(self).group_state.selected != Some(usize::MAX),
        ensures
            if up {
                moved_up(*old(self), *final(self))
            } else {
                moved_down(*old(self), *final(self))
            },
    {
        if up {
            self.prev_group();
        } else {
            self.next_group();
        }
    }

    // ─── Data ──────────────────────────────────────────────────────────────

    /// Stores the system memory figures.
    pub fn set_system_memory(&mut self, mem: SystemMemory)
        ensures
            *final(self) == (App { system_memory: Some(mem), ..*old(self) }),
    {
        self.system_memory = Some(mem);
    }

    /// Recomputes the totals and the groups from `processes` in the current mode.
    pub fn recalculate_from(&mut self, processes: &[ProcessMemory])
        requires
            sums_fit(processes@),
        ensures
            regrouped(processes@, old(self).group_mode, old(self).home@, *final(self)),
            *final(self) == (App {
                groups: final(self).groups,
                total_phys: final(self).total_phys,
                total_swap: final(self).total_swap,
                ..*old(self)
            }),
    {
        let mut rss: u64 = 0;
        let mut swap: u64 = 0;
        let mut i: usize = 0;
        let ghost ps = processes@;
        assert(ps.take(0) =~= Seq::<ProcessMemory>::empty());
        while i < processes.len()
            invariant
                i <= ps.len(),
                ps == processes@,
                rss == seq_sum(ps.take(i as int), rss_of()),
                swap == seq_sum(ps.take(i as int), swap_of()),
                sums_fit(ps),
            decreases ps.len() - i,
        {
            assert(ps.take(i + 1).drop_last() =~= ps.take(i as int));
            proof {
                crate::group::lemma_prefix_sum(ps, i + 1, rss_of());
                crate::group::lemma_prefix_sum(ps, i + 1, swap_of());
            }
            rss = rss + processes[i].rss;
            swap = swap + processes[i].swap;
            i += 1;
        }
        assert(ps.take(i as int) =~= ps);
        self.total_phys = rss;
        self.total_swap = swap;
        self.groups = group_processes(processes, self.group_mode, self.home.as_str());
    }

    /// Takes a fresh process list: regroups it, keeps it, and selects the
    /// first row when nothing was selected and there are groups.
    pub fn set_processes(&mut self, processes: Vec<ProcessMemory>)
        requires
            sums_fit(processes@),
        ensures
            regrouped(processes@, old(self).group_mode, old(self).home@, *final(self)),
            first_row_if_none(*old(self), *final(self)),
            final(self).all_processes@ == processes@,
            *final(self) == (App {
                all_processes: final(self).all_processes,
                groups: final(self).groups,
                total_phys: final(self).total_phys,
                total_swap: final(self).total_swap,
                group_state: final(self).group_state,
                ..*old(self)
            }),
    {
        self.recalculate_from(processes.as_slice());
        self.all_processes = processes;
        if self.group_state.selected().is_none() && self.groups.len() > 0 {
            self.group_state.select(Some(0));
        }
    }

    /// Switches between app and project grouping and regroups the scanned processes.
    pub fn cycle_group(&mut self)
        requires
            sums_fit(old(self).all_processes@),
        ensures
            mode_cycled(*old(self), *final(self)),
    {
        self.group_mode = match self.group_mode {
            GroupMode::Project => GroupMode::App,
            GroupMode::App => GroupMode::Project,
        };
        let procs = copy_processes(&self.all_processes);
        self.recalculate_from(procs.as_slice());
        self.expanded_group = None;
        self.proc_state.select(None);
        if self.groups.len() > 0 {
            self.group_state.select(Some(0));
        }
    }

    /// Sorts the groups stably by the sort column, descending when `sort_desc`.
    pub fn sort_groups(&mut self)
        ensures
            resorted(*old(self), *final(self), old(self).sort_column, old(self).sort_desc),
    {
        let col = self.sort_column;
        let desc = self.sort_desc;
        let mut groups: Vec<AppGroup> = Vec::new();
        std::mem::swap(&mut groups, &mut self.groups);
        proof {
            lemma_sort_order(col, desc);
        }
        let sorted = stable_sort(
            groups,
            (move |a: &AppGroup, b: &AppGroup| -> (r: bool)
                ensures
                    r == sort_order(col, desc)(*a, *b),
                {
                    if desc {
                        column_before(col, b, a)
                    } else {
                        column_before(col, a, b)
                    }
                }),
            Ghost(sort_order(col, desc)),
        );
        self.groups = sorted;
    }

    fn sort_by(&mut self, col: SortColumn, desc: bool)
        ensures
            resorted(*old(self), *final(self), col, desc),
    {
        self.sort_column = col;
        self.sort_desc = desc;
        self.sort_groups();
    }

    fn open_detail(&mut self) -> (a: Action)
        ensures
            detail_opened(*old(self), *final(self), a),
    {
        match self.target_process() {
            Some(p) => {
                self.detail_view_open = true;
                Action::ShowDetail(p)
            },
            None => Action::Nothing,
        }
    }

    fn open_row(&mut self) -> (a: Action)
        ensures
            row_opened(*old(self), *final(self), a),
    {
        match self.selected_process() {
            Some((_, Some(_))) => self.open_detail(),
            _ => {
                self.toggle_expand();
                Action::Nothing
            },
        }
    }

    /// Handles a key press. See `key_handled`.
    pub fn handle_key(&mut self, key: Key) -> (a: Action)
        requires
            key == Key::Down || key == Key::Char('j') ==> old(self).group_state.selected != Some(
                usize::MAX,
            ),
            key == Key::Tab ==> sums_fit(old(self).all_processes@),
        ensures
            key_handled(*old(self), key, *final(self), a),
    {
        if self.detail_view_open {
            match key {
                Key::Char('q') | Key::Esc => {
                    self.detail_view_open = false;
                },
                _ => {},
            }
            return Action::Nothing;
        }
        match key {
            Key::Char('q') | Key::Esc => {
                self.quit();
                Action::Nothing
            },
            Key::Up | Key::Char('k') => {
                self.prev_group();
                Action::Nothing
            },
            Key::Down | Key::Char('j') => {
                self.next_group();
                Action::Nothing
            },
            Key::Enter => self.open_row(),
            Key::Char('d') => self.open_detail(),
            Key::Char('r') => {
                if !self.is_loading {
                    self.is_loading = true;
                    self.groups = Vec::new();
                    self.all_processes = Vec::new();
                    self.expanded_group = None;
                    Action::Rescan
                } else {
                    Action::Nothing
                }
            },
            Key::Char('x') => match self.kill_target() {
                Some(pid) => Action::Kill(pid),
                None => Action::Nothing,
            },
            Key::Char('t') => {
                self.sort_by(SortColumn::Total, true);
                Action::Nothing
            },
            Key::Char('p') => {
                self.sort_by(SortColumn::Physical, true);
                Action::Nothing
            },
            Key::Char('s') => {
                self.sort_by(SortColumn::Swap, true);
                Action::Nothing
            },
            Key::Char('n') => {
                self.sort_by(SortColumn::Name, false);
                Action::Nothing
            },
            Key::Tab => {
                self.cycle_group();
                Action::Nothing
            },
            _ => Action::Nothing,
        }
    }

    /// Handles a mouse event. See `mouse_handled`.
    pub fn handle_mouse(&mut self, m: Mouse) -> (a: Action)
        requires
            m is ScrollDown ==> old(self).group_state.selected != Some(usize::MAX),
            m is LeftDown ==> old(self).table_area.y <= u16::MAX - 3,
        ensures
            mouse_handled(*old(self), m, *final(self), a),
    {
        match m {
            Mouse::ScrollUp => {
                self.scroll_table(true);
                Action::Nothing
            },
            Mouse::ScrollDown => {
                self.scroll_table(false);
                Action::Nothing
            },
            Mouse::RightDown => {
                self.toggle_expand();
                Action::Nothing
            },
            Mouse::LeftDown { row, col, at_ms } => {
                let double = match self.last_click {
                    Some((t, r)) => r == row && t <= at_ms && at_ms - t <= DOUBLE_CLICK_MS,
                    None => false,
                };
                let on_row = row >= self.table_area.y + 3 && ((row - (self.table_area.y + 3))
                    as usize) < self.row_map.entries.len();
                self.click_table(row, col);
                let ghost mid = *self;
                if double && on_row {
                    self.last_click = None;
                    self.open_row()
                } else {
                    self.last_click = Some((at_ms, row));
                    Action::Nothing
                }
            },
            Mouse::Other => Action::Nothing,
        }
    }

    /// Applies a result of the background scan. See `scan_applied`.
    pub fn handle_scan_update(&mut self, u: ScanUpdate)
        requires
            match u {
                ScanUpdate::Processes(ps) => sums_fit(ps@),
                ScanUpdate::SwapBatch(b) => sums_fit(all_with_swap(old(self).all_processes@, b@)),
                _ => true,
            },
        ensures
            scan_applied(*old(self), u, *final(self)),
    {
        match u {
            ScanUpdate::SystemMemory(m) => self.set_system_memory(m),
            ScanUpdate::Processes(ps) => {
                let n = ps.len();
                self.set_processes(ps);
                self.is_loading = false;
                self.status_message = Some(text_with_count("Quick scan done — ", n as u64, " procs"));
            },
            ScanUpdate::SwapBatch(b) => {
                apply_swap(&mut self.all_processes, &b);
                let procs = copy_processes(&self.all_processes);
                self.recalculate_from(procs.as_slice());
                let ghost mid = *self;
                self.sort_groups();
                assert(resorted(mid, *self, old(self).sort_column, old(self).sort_desc));
            },
            ScanUpdate::Done => {
                let g = self.groups.len();
                let p = self.all_processes.len();
                let mut v = chars_of("Ready — ");
                push_decimal(&mut v, g as u64);
                let mut v = concat(&v, &chars_of(" apps, "));
                push_decimal(&mut v, p as u64);
                let v = concat(&v, &chars_of(" processes"));
                self.is_loading = false;
                self.status_message = Some(string_of(&v));
            },
        }
    }
}

// ─── Table rows ────────────────────────────────────────────────────────────

/// The visual rows for groups with these process counts: each group's own
/// row, followed by one row per process when it is the expanded group.
pub open spec fn rows_for(counts: Seq<nat>, expanded: Option<usize>) -> Seq<(usize, Option<usize>)>
    decreases counts.len(),
{
    if counts.len() == 0 {
        Seq::empty()
    } else {
        let gi = (counts.len() - 1) as usize;
        let head = rows_for(counts.drop_last(), expanded) + seq![(gi, None::<usize>)];
        if expanded == Some(gi) {
            head + Seq::new(counts.last(), |pi: int| (gi, Some(pi as usize)))
        } else {
            head
        }
    }
}

/// The number of processes of each group.
pub open spec fn process_counts(groups: Seq<AppGroup>) -> Seq<nat> {
    groups.map_values(|g: AppGroup| g.processes@.len())
}

/// The visual rows of the table for these groups with `expanded` open.
pub fn build_row_map(groups: &Vec<AppGroup>, expanded: Option<usize>) -> (r: RowMap)
    ensures
        r.entries@ == rows_for(process_counts(groups@), expanded),
{
    let ghost counts = process_counts(groups@);
    let mut entries: Vec<(usize, Option<usize>)> = Vec::new();
    let mut gi: usize = 0;
    assert(counts.take(0) =~= Seq::<nat>::empty());
    while gi < groups.len()
        invariant
            gi <= groups.len(),
            counts == process_counts(groups@),
            entries@ == rows_for(counts.take(gi as int), expanded),
        decreases groups.len() - gi,
    {
        assert(counts.take(gi + 1).drop_last() =~= counts.take(gi as int));
        assert(counts.take(gi + 1).last() == groups@[gi as int].processes@.len());
        entries.push((gi, None));
        let ghost head = entries@;
        if expanded == Some(gi) {
            let n = groups[gi].processes.len();
            let mut pi: usize = 0;
            while pi < n
                invariant
                    pi <= n,
                    entries@ == head + Seq::new(pi as nat, |q: int| (gi, Some(q as usize))),
                decreases n - pi,
            {
                entries.push((gi, Some(pi)));
                assert(entries@ =~= head + Seq::new((pi + 1) as nat, |q: int| (gi, Some(q as usize))));
                pi += 1;
            }
        }
        gi += 1;
    }
    assert(counts.take(groups.len() as int) =~= counts);
    RowMap { entries }
}

/// How alarming a swap figure is.
#[derive(Debug, Clone, Copy, PartialEq, Eq, Structural)]
pub enum SwapLevel {
    Low,
    Elevated,
    High,
}

/// Above 1 GiB high, above 512 MiB elevated, else low.
pub fn swap_level(bytes: u64) -> (r: SwapLevel)
    ensures
        r == if bytes > 1024 * 1024 * 1024 {
            SwapLevel::High
        } else if bytes > 512 * 1024 * 1024 {
            SwapLevel::Elevated
        } else {
            SwapLevel::Low
        },
{
    if bytes > 1024 * 1024 * 1024 {
        SwapLevel::High
    } else if bytes > 512 * 1024 * 1024 {
        SwapLevel::Elevated
    } else {
        SwapLevel::Low
    }
}

/// How heavy a total figure is, in five steps.
#[derive(Debug, Clone, Copy, PartialEq, Eq, Structural)]
pub enum TotalLevel {
    Light,
    Moderate,
    Notable,
    Heavy,
    Extreme,
}

/// From 4 GiB extreme, from 2 GiB heavy, from 1 GiB notable, from 500 MiB
/// moderate, else light.
pub fn total_level(bytes: u64) -> (r: TotalLevel)
    ensures
        r == if bytes >= 4 * 1024 * 1024 * 1024 {
            TotalLevel::Extreme
        } else if bytes >= 2 * 1024 * 1024 * 1024 {
            TotalLevel::Heavy
        } else if bytes >= 1024 * 1024 * 1024 {
            TotalLevel::Notable
        } else if bytes >= 500 * 1024 * 1024 {
            TotalLevel::Moderate
        } else {
            TotalLevel::Light
        },
{
    if bytes >= 4 * 1024 * 1024 * 1024 {
        TotalLevel::Extreme
    } else if bytes >= 2 * 1024 * 1024 * 1024 {
        TotalLevel::Heavy
    } else if bytes >= 1024 * 1024 * 1024 {
        TotalLevel::Notable
    } else if bytes >= 500 * 1024 * 1024 {
        TotalLevel::Moderate
    } else {
        TotalLevel::Light
    }
}

} // verus!
