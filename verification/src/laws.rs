//! Properties of the library as a whole: what grouping keeps, how the table
//! is ordered, and how navigation and mode switching compose.
use vstd::prelude::*;
use vstd::multiset::Multiset;
use crate::app::{App, moved_down, moved_up, mode_cycled, next_row, prev_row, resorted, sort_order, SortColumn};
use crate::group::{
    bridge_text, dedup, lemma_dedup, lemma_root_from_words_empty, project_root, root_from_words,
    root_probes, shorten, shortened_roots, word_probes,
    app_name_rule, canonical_app,
    dir_probes, first_reported_path, join, lemma_first_marked_none, lemma_last_path_reported,
    lemma_no_path_reported, marker_probes, markers, probe_answers_shape, probes_over,
    AppGroup, GroupKind, GroupMode, by_rss_desc, by_total_desc, distinct_names, excluded, first_marked,
    family_rule, group_for, grouped, has_marker, keys_of, last_slash, runtime_family_of, lemma_last_slash, marker_root, members,
    lemma_trim_tail, names_contain, parent_dir, rss_of, threads_of, same_dir, trim_tail, search_dirs, swap_of, under_home, walk_up,
};
use crate::text::{contains_seq, lowercase, strip_leading};
use crate::scanner::ProcessMemory;
use crate::scanner::sat_add;
use crate::sort::{
    lemma_stable_sort_map, lemma_stable_sort_unique, lemma_ms_sum_multiset, lemma_ms_sum_pointwise, lemma_sum_multiset, ms_sum, seq_sum, sorted_by,
    stable_sort_of, stable_witness,
};

verus! {

/// All processes of all groups, counted with multiplicity.
pub open spec fn all_members(gs: Seq<AppGroup>) -> Multiset<ProcessMemory> {
    ms_sum(gs, |g: AppGroup| g.processes@.to_multiset())
}

spec fn member_ms(
    procs: Seq<ProcessMemory>,
    ks: Seq<(GroupKind, Seq<char>)>,
) -> spec_fn(Seq<char>) -> Multiset<ProcessMemory> {
    |nm: Seq<char>| members(procs, ks, nm).to_multiset()
}

proof fn lemma_distinct_names_unique(ks: Seq<(GroupKind, Seq<char>)>)
    ensures
        distinct_names(ks).no_duplicates(),
    decreases ks.len(),
{
    if ks.len() > 0 {
        lemma_distinct_names_unique(ks.drop_last());
    }
}

proof fn lemma_members_absent(
    procs: Seq<ProcessMemory>,
    ks: Seq<(GroupKind, Seq<char>)>,
    name: Seq<char>,
)
    requires
        procs.len() == ks.len(),
        !names_contain(ks, name),
    ensures
        members(procs, ks, name) == Seq::<ProcessMemory>::empty(),
    decreases procs.len(),
{
    if procs.len() > 0 {
        assert(!names_contain(ks.drop_last(), name)) by {
            if names_contain(ks.drop_last(), name) {
                let i = choose|i: int| 0 <= i < ks.len() - 1 && (#[trigger] ks.drop_last()[i]).1 == name;
                assert(ks[i].1 == name);
            }
        }
        assert(ks[ks.len() - 1].1 != name);
        lemma_members_absent(procs.drop_last(), ks.drop_last(), name);
    }
}

/// Over names without repeats, adding `x` to the members of `k` adds `x` once
/// to the union when `k` is among the names.
proof fn lemma_union_add_one(
    names: Seq<Seq<char>>,
    f: spec_fn(Seq<char>) -> Multiset<ProcessMemory>,
    g: spec_fn(Seq<char>) -> Multiset<ProcessMemory>,
    k: Seq<char>,
    x: ProcessMemory,
)
    requires
        names.no_duplicates(),
        forall|nm: Seq<char>| nm != k ==> #[trigger] g(nm) == f(nm),
        g(k) == f(k).insert(x),
    ensures
        ms_sum(names, g) == if names.contains(k) {
            ms_sum(names, f).insert(x)
        } else {
            ms_sum(names, f)
        },
    decreases names.len(),
{
    if names.len() > 0 {
        let init = names.drop_last();
        assert(init.no_duplicates());
        lemma_union_add_one(init, f, g, k, x);
        let last = names.last();
        if last == k {
            assert(!init.contains(k)) by {
                if init.contains(k) {
                    let i = choose|i: int| 0 <= i < init.len() && init[i] == k;
                    assert(names[i] == names[names.len() - 1]);
                }
            }
            assert(ms_sum(names, g) =~= ms_sum(names, f).insert(x));
        } else {
            assert(names.contains(k) == init.contains(k)) by {
                if names.contains(k) {
                    let i = choose|i: int| 0 <= i < names.len() && names[i] == k;
                    assert(init[i] == k);
                }
                if init.contains(k) {
                    let i = choose|i: int| 0 <= i < init.len() && init[i] == k;
                    assert(names[i] == k);
                }
            }
            if names.contains(k) {
                assert(ms_sum(names, g) =~= ms_sum(names, f).insert(x));
            }
        }
    }
}

proof fn lemma_members_partition(procs: Seq<ProcessMemory>, ks: Seq<(GroupKind, Seq<char>)>)
    requires
        procs.len() == ks.len(),
    ensures
        ms_sum(distinct_names(ks), member_ms(procs, ks)) == procs.to_multiset(),
    decreases procs.len(),
{
    broadcast use vstd::seq_lib::group_to_multiset_ensures;

    if procs.len() == 0 {
        assert(procs.to_multiset() =~= Multiset::empty());
    } else {
        let p0 = procs.drop_last();
        let k0 = ks.drop_last();
        let x = procs.last();
        let k = ks.last().1;
        lemma_members_partition(p0, k0);
        lemma_distinct_names_unique(k0);
        let f = member_ms(p0, k0);
        let g = member_ms(procs, ks);
        assert forall|nm: Seq<char>| nm != k implies #[trigger] g(nm) == f(nm) by {}
        assert(members(procs, ks, k) == members(p0, k0, k).push(x));
        assert(g(k) == f(k).insert(x));
        lemma_union_add_one(distinct_names(k0), f, g, k, x);
        assert(procs =~= p0.push(x));
        crate::group::lemma_distinct_names_contain(k0, k);
        if !distinct_names(k0).contains(k) {
            lemma_members_absent(p0, k0, k);
            assert(f(k) =~= Multiset::empty());
            assert(distinct_names(ks) == distinct_names(k0).push(k));
            assert(distinct_names(k0).push(k).drop_last() =~= distinct_names(k0));
            assert(ms_sum(distinct_names(ks), g) =~= ms_sum(distinct_names(k0), g).add(g(k)));
            assert(ms_sum(distinct_names(ks), g) =~= procs.to_multiset());
        } else {
            assert(ms_sum(distinct_names(ks), g) =~= procs.to_multiset());
        }
    }
}

/// Grouping keeps every process: the groups together hold exactly the given
/// processes, each as often as it was given, in either mode and whatever the
/// project roots. Switching between app and project mode therefore
/// re-pivots the same processes without losing or duplicating any.
pub proof fn law_grouping_keeps_every_process(
    procs: Seq<ProcessMemory>,
    mode: GroupMode,
    home: Seq<char>,
    roots: Seq<Option<Seq<char>>>,
    r: Seq<AppGroup>,
)
    requires
        grouped(procs, mode, home, roots, r),
    ensures
        all_members(r) == procs.to_multiset(),
{
    let ks = keys_of(procs, mode, roots);
    let names = distinct_names(ks);
    let u = choose|u: Seq<AppGroup>|
        {
            &&& u.len() == names.len()
            &&& forall|i: int| 0 <= i < u.len() ==> group_for(#[trigger] u[i], procs, ks, names[i], home)
            &&& stable_sort_of(r, u, by_total_desc())
        };
    let gf = |g: AppGroup| g.processes@.to_multiset();
    lemma_ms_sum_multiset(r, u, gf);
    assert forall|i: int| 0 <= i < u.len() implies gf(#[trigger] u[i]) == member_ms(procs, ks)(
        names[i],
    ) by {
        assert(group_for(u[i], procs, ks, names[i], home));
    }
    lemma_ms_sum_pointwise(u, names, gf, member_ms(procs, ks));
    lemma_members_partition(procs, ks);
}

/// The groups come largest total first.
pub proof fn law_groups_by_total(
    procs: Seq<ProcessMemory>,
    mode: GroupMode,
    home: Seq<char>,
    roots: Seq<Option<Seq<char>>>,
    r: Seq<AppGroup>,
)
    requires
        grouped(procs, mode, home, roots, r),
    ensures
        forall|i: int, j: int| 0 <= i < j < r.len() ==> r[i].spec_total() >= r[j].spec_total(),
{
    let ks = keys_of(procs, mode, roots);
    let names = distinct_names(ks);
    let u = choose|u: Seq<AppGroup>|
        {
            &&& u.len() == names.len()
            &&& forall|i: int| 0 <= i < u.len() ==> group_for(#[trigger] u[i], procs, ks, names[i], home)
            &&& stable_sort_of(r, u, by_total_desc())
        };
    assert(sorted_by(r, by_total_desc()));
    assert forall|i: int, j: int| 0 <= i < j < r.len() implies r[i].spec_total()
        >= r[j].spec_total() by {
        assert(by_total_desc()(r[i], r[j]));
    }
}


/// The processes of the groups, group after group.
pub open spec fn flat(gs: Seq<AppGroup>) -> Seq<ProcessMemory>
    decreases gs.len(),
{
    if gs.len() == 0 {
        Seq::empty()
    } else {
        flat(gs.drop_last()) + gs.last().processes@
    }
}

proof fn lemma_sum_concat(a: Seq<ProcessMemory>, b: Seq<ProcessMemory>, f: spec_fn(ProcessMemory) -> nat)
    ensures
        seq_sum(a + b, f) == seq_sum(a, f) + seq_sum(b, f),
    decreases b.len(),
{
    if b.len() == 0 {
        assert(a + b =~= a);
    } else {
        lemma_sum_concat(a, b.drop_last(), f);
        assert((a + b).drop_last() =~= a + b.drop_last());
    }
}

proof fn lemma_flat_members(gs: Seq<AppGroup>)
    ensures
        flat(gs).to_multiset() == all_members(gs),
    decreases gs.len(),
{
    broadcast use vstd::seq_lib::group_to_multiset_ensures;

    if gs.len() == 0 {
        assert(flat(gs) =~= Seq::<ProcessMemory>::empty());
        assert(flat(gs).to_multiset() =~= Multiset::empty());
    } else {
        lemma_flat_members(gs.drop_last());
        vstd::seq_lib::lemma_multiset_commutative(flat(gs.drop_last()), gs.last().processes@);
    }
}

proof fn lemma_flat_sum(gs: Seq<AppGroup>, f: spec_fn(ProcessMemory) -> nat, t: spec_fn(AppGroup) -> nat)
    requires
        forall|i: int| 0 <= i < gs.len() ==> t(#[trigger] gs[i]) == seq_sum(gs[i].processes@, f),
    ensures
        seq_sum(flat(gs), f) == seq_sum(gs, t),
    decreases gs.len(),
{
    if gs.len() > 0 {
        let init = gs.drop_last();
        assert forall|i: int| 0 <= i < init.len() implies t(#[trigger] init[i]) == seq_sum(
            init[i].processes@,
            f,
        ) by {
            assert(init[i] == gs[i]);
        }
        lemma_flat_sum(init, f, t);
        lemma_sum_concat(flat(init), gs.last().processes@, f);
        assert(t(gs[gs.len() - 1]) == seq_sum(gs[gs.len() - 1].processes@, f));
    }
}

/// The totals of a group are the sums over its processes.
proof fn lemma_grouped_totals(
    procs: Seq<ProcessMemory>,
    mode: GroupMode,
    home: Seq<char>,
    roots: Seq<Option<Seq<char>>>,
    r: Seq<AppGroup>,
)
    requires
        grouped(procs, mode, home, roots, r),
    ensures
        forall|i: int| 0 <= i < r.len() ==> (#[trigger] r[i]).total_rss == seq_sum(r[i].processes@, rss_of())
            && r[i].total_swap == seq_sum(r[i].processes@, swap_of()),
{
    let ks = keys_of(procs, mode, roots);
    let names = distinct_names(ks);
    let u = choose|u: Seq<AppGroup>|
        {
            &&& u.len() == names.len()
            &&& forall|i: int| 0 <= i < u.len() ==> group_for(#[trigger] u[i], procs, ks, names[i], home)
            &&& stable_sort_of(r, u, by_total_desc())
        };
    let p = choose|p: Seq<int>| stable_witness(r, u, by_total_desc(), p);
    assert forall|i: int| 0 <= i < r.len() implies (#[trigger] r[i]).total_rss == seq_sum(
        r[i].processes@,
        rss_of(),
    ) && r[i].total_swap == seq_sum(r[i].processes@, swap_of()) by {
        assert(r[i] == u[p[i]]);
        assert(group_for(u[p[i]], procs, ks, names[p[i]], home));
    }
}

/// Within every group the processes come largest resident memory first.
pub proof fn law_members_by_resident_memory(
    procs: Seq<ProcessMemory>,
    mode: GroupMode,
    home: Seq<char>,
    roots: Seq<Option<Seq<char>>>,
    r: Seq<AppGroup>,
)
    requires
        grouped(procs, mode, home, roots, r),
    ensures
        forall|g: int, i: int, j: int|
            0 <= g < r.len() && 0 <= i < j < r[g].processes@.len() ==> (#[trigger] r[g].processes@[i]).rss
                >= (#[trigger] r[g].processes@[j]).rss,
{
    let ks = keys_of(procs, mode, roots);
    let names = distinct_names(ks);
    let u = choose|u: Seq<AppGroup>|
        {
            &&& u.len() == names.len()
            &&& forall|i: int| 0 <= i < u.len() ==> group_for(#[trigger] u[i], procs, ks, names[i], home)
            &&& stable_sort_of(r, u, by_total_desc())
        };
    let p = choose|p: Seq<int>| stable_witness(r, u, by_total_desc(), p);
    assert forall|g: int, i: int, j: int|
        0 <= g < r.len() && 0 <= i < j < r[g].processes@.len() implies (#[trigger] r[g].processes@[i]).rss
            >= (#[trigger] r[g].processes@[j]).rss by {
        assert(r[g] == u[p[g]]);
        assert(group_for(u[p[g]], procs, ks, names[p[g]], home));
        assert(sorted_by(r[g].processes@, by_rss_desc()));
        assert(by_rss_desc()(r[g].processes@[i], r[g].processes@[j]));
    }
}

/// Grouping neither loses nor invents memory: the resident and swapped totals
/// of all groups add up to those of all processes, in either mode.
pub proof fn law_group_totals_add_up(
    procs: Seq<ProcessMemory>,
    mode: GroupMode,
    home: Seq<char>,
    roots: Seq<Option<Seq<char>>>,
    r: Seq<AppGroup>,
)
    requires
        grouped(procs, mode, home, roots, r),
    ensures
        seq_sum(r, |g: AppGroup| g.total_rss as nat) == seq_sum(procs, rss_of()),
        seq_sum(r, |g: AppGroup| g.total_swap as nat) == seq_sum(procs, swap_of()),
{
    lemma_grouped_totals(procs, mode, home, roots, r);
    law_grouping_keeps_every_process(procs, mode, home, roots, r);
    lemma_flat_members(r);
    lemma_sum_multiset(flat(r), procs, rss_of());
    lemma_sum_multiset(flat(r), procs, swap_of());
    lemma_flat_sum(r, rss_of(), |g: AppGroup| g.total_rss as nat);
    lemma_flat_sum(r, swap_of(), |g: AppGroup| g.total_swap as nat);
}

/// A directory under one of home's tool directories never belongs to a project.
pub proof fn law_excluded_has_no_project(dir: Seq<char>, home: Seq<char>, existing: Seq<Seq<char>>)
    requires
        excluded(dir, home),
    ensures
        marker_root(dir, home, existing) is None,
{
    assert(search_dirs(dir, home) =~= Seq::<Seq<char>>::empty());
}

proof fn lemma_first_marked(ds: Seq<Seq<char>>, existing: Seq<Seq<char>>)
    ensures
        match first_marked(ds, existing) {
            Some(d) => exists|k: int|
                0 <= k < ds.len() && ds[k] == d && has_marker(d, existing) && forall|j: int|
                    0 <= j < k ==> !has_marker(#[trigger] ds[j], existing),
            None => forall|j: int| 0 <= j < ds.len() ==> !has_marker(#[trigger] ds[j], existing),
        },
    decreases ds.len(),
{
    if ds.len() > 0 && !has_marker(ds[0], existing) {
        let rest = ds.drop_first();
        lemma_first_marked(rest, existing);
        match first_marked(rest, existing) {
            Some(d) => {
                let k = choose|k: int|
                    0 <= k < rest.len() && rest[k] == d && has_marker(d, existing) && forall|j: int|
                        0 <= j < k ==> !has_marker(#[trigger] rest[j], existing);
                assert forall|j: int| 0 <= j < k + 1 implies !has_marker(#[trigger] ds[j], existing) by {
                    if j > 0 {
                        assert(ds[j] == rest[j - 1]);
                    }
                }
                assert(ds[k + 1] == d);
            },
            None => {
                assert forall|j: int| 0 <= j < ds.len() implies !has_marker(#[trigger] ds[j], existing) by {
                    if j > 0 {
                        assert(ds[j] == rest[j - 1]);
                    }
                }
            },
        }
    }
}

/// Nested projects collapse to the nearest marker: the project root of a
/// directory is the first searched directory (the directory itself, then its
/// ancestors up to home) that holds a marker, and no nearer one holds one;
/// with no marker on the way there is no root.
pub proof fn law_nearest_marker_wins(dir: Seq<char>, home: Seq<char>, existing: Seq<Seq<char>>)
    ensures
        match marker_root(dir, home, existing) {
            Some(root) => exists|k: int|
                0 <= k < search_dirs(dir, home).len() && search_dirs(dir, home)[k] == root
                    && has_marker(root, existing) && forall|j: int|
                    0 <= j < k ==> !has_marker(#[trigger] search_dirs(dir, home)[j], existing),
            None => forall|j: int|
                0 <= j < search_dirs(dir, home).len() ==> !has_marker(
                    #[trigger] search_dirs(dir, home)[j],
                    existing,
                ),
        },
{
    lemma_first_marked(search_dirs(dir, home), existing);
}

/// Moving down and then up returns to the row one started on, and so does
/// moving up and then down, on a table with rows and a selection within it.
pub proof fn law_down_then_up_returns(a: App, b: App, c: App)
    requires
        0 < a.row_map.entries@.len() <= usize::MAX,
        a.group_state.selected matches Some(i) && i < a.row_map.entries@.len(),
        moved_down(a, b) && moved_up(b, c) || moved_up(a, b) && moved_down(b, c),
    ensures
        c.group_state.selected == a.group_state.selected,
        c.row_map == a.row_map,
{
    let len = a.row_map.entries@.len();
    let i: int = a.group_state.selected->0 as int;
    let n: int = len as int;
    assert(b.row_map == a.row_map);
    let up = if i == 0 { n - 1 } else { i - 1 };
    let down = if i + 1 < n { i + 1 } else { 0 };
    assert((i + 1) % n == down) by (nonlinear_arith)
        requires
            0 <= i < n,
            down == if i + 1 < n { i + 1 } else { 0 },
    ;
    assert((up + 1) % n == i) by (nonlinear_arith)
        requires
            0 <= i < n,
            up == if i == 0 { n - 1 } else { i - 1 },
    ;
    if moved_down(a, b) && moved_up(b, c) {
        assert(b.group_state.selected == Some(down as usize));
        assert(b.row_map.entries@.len() == len);
        assert(prev_row(Some(down as usize), len) == Some(i as usize));
        assert(c.group_state.selected == Some(i as usize));
    } else {
        assert(b.group_state.selected == Some(up as usize));
        assert(b.row_map.entries@.len() == len);
        assert(next_row(Some(up as usize), len) == Some(i as usize));
        assert(c.group_state.selected == Some(i as usize));
    }
}

/// Moving keeps the selection on a row of the table.
pub proof fn law_moves_stay_in_table(a: App, b: App)
    requires
        a.row_map.entries@.len() > 0,
        a.group_state.selected matches Some(i) ==> i < a.row_map.entries@.len(),
        moved_down(a, b) || moved_up(a, b),
    ensures
        b.group_state.selected matches Some(j) && j < b.row_map.entries@.len(),
{
}

/// Switching the grouping mode twice comes back to the first mode, over the
/// same scanned processes.
pub proof fn law_tab_twice_restores_mode(a: App, b: App, c: App)
    requires
        mode_cycled(a, b),
        mode_cycled(b, c),
    ensures
        c.group_mode == a.group_mode,
        c.all_processes == a.all_processes,
{
}

/// Sorting rearranges the groups without adding or dropping any, and leaves
/// them ordered by the chosen column and direction.
pub proof fn law_sort_rearranges(a: App, b: App, col: SortColumn, desc: bool)
    requires
        resorted(a, b, col, desc),
    ensures
        b.groups@.to_multiset() == a.groups@.to_multiset(),
        sorted_by(b.groups@, sort_order(col, desc)),
{
    let p = choose|p: Seq<int>| stable_witness(b.groups@, a.groups@, sort_order(col, desc), p);
}

proof fn lemma_last_slash_at_least(t: Seq<char>, j: int)
    requires
        0 <= j < t.len(),
        t[j] == '/',
    ensures
        j <= last_slash(t) < t.len(),
    decreases t.len(),
{
    lemma_last_slash(t);
    if t.last() != '/' {
        lemma_last_slash_at_least(t.drop_last(), j);
    }
}

/// The parent of a directory strictly below `home` is still below `home`, or
/// is `home` itself.
proof fn lemma_parent_under(d: Seq<char>, h: Seq<char>, p: Seq<char>)
    requires
        (h + seq!['/']).is_prefix_of(d),
        !same_dir(d, h),
        parent_dir(d) == Some(p),
    ensures
        under_home(p, h) || same_dir(p, h),
{
    let n = h.len() as int;
    let t = trim_tail(d);
    lemma_trim_tail(d);
    assert(d[n] == '/') by {
        assert((h + seq!['/'])[n] == '/');
        assert(d.subrange(0, n + 1)[n] == d[n]);
    }
    assert(d.take(n) =~= h) by {
        assert forall|i: int| 0 <= i < n implies d[i] == h[i] by {
            assert((h + seq!['/'])[i] == h[i]);
            assert(d.subrange(0, n + 1)[i] == d[i]);
        }
    }
    if t.len() <= n {
        assert(trim_tail(d.take(n)) == t);
        assert(false);
    }
    assert(t.len() > n + 1) by {
        if t.len() == n + 1 {
            assert(t[n] == d[n]);
        }
    }
    assert(t[n] == '/');
    lemma_last_slash_at_least(t, n);
    let k = last_slash(t);
    let u = t.take(k);
    let q = trim_tail(u);
    lemma_trim_tail(u);
    assert(p == if q.len() == 0 { seq!['/'] } else { q });
    if q.len() >= n + 1 {
        assert((h + seq!['/']) =~= q.subrange(0, n + 1)) by {
            assert forall|i: int| 0 <= i < n + 1 implies q.subrange(0, n + 1)[i] == (h + seq![
                '/',
            ])[i] by {
                assert(q[i] == u[i]);
                assert(u[i] == t[i]);
                assert(t[i] == d[i]);
                assert(d.subrange(0, n + 1)[i] == d[i]);
            }
        }
        assert(p == q);
        assert(under_home(p, h));
    } else {
        assert(trim_tail(u.take(n)) == q);
        assert(u.take(n) =~= h) by {
            assert forall|i: int| 0 <= i < n implies u.take(n)[i] == h[i] by {
                assert(u[i] == t[i]);
                assert(t[i] == d[i]);
                assert(d.take(n)[i] == d[i]);
            }
        }
        assert(trim_tail(h) == q);
        if q.len() == 0 {
            assert(p == seq!['/']);
            assert(p.drop_last() =~= Seq::<char>::empty());
            assert(trim_tail(p) == trim_tail(p.drop_last()));
            assert(trim_tail(p) =~= q);
            assert(same_dir(p, h));
        } else {
            assert(p == q);
            assert(trim_tail(p) == q);
            assert(same_dir(p, h));
        }
    }
}

proof fn lemma_walk_under(d: Seq<char>, h: Seq<char>)
    requires
        under_home(d, h) || same_dir(d, h),
    ensures
        forall|k: int|
            0 <= k < walk_up(d, h).len() ==> under_home(#[trigger] walk_up(d, h)[k], h) || same_dir(
                walk_up(d, h)[k],
                h,
            ),
    decreases d.len(),
{
    if !same_dir(d, h) {
        match parent_dir(d) {
            None => {},
            Some(p) => {
                crate::group::lemma_parent_shorter(d);
                assert(d != h);
                lemma_parent_under(d, h, p);
                lemma_walk_under(p, h);
                let w = walk_up(d, h);
                assert(w == seq![d] + walk_up(p, h));
                assert forall|k: int| 0 <= k < w.len() implies under_home(#[trigger] w[k], h)
                    || same_dir(w[k], h) by {
                    if k > 0 {
                        assert(w[k] == walk_up(p, h)[k - 1]);
                    }
                }
            },
        }
    }
}

/// The search for a project marker never climbs above home: every directory
/// searched is home itself (trailing separators and `.` components aside)
/// or lies below it.
pub proof fn law_search_stays_under_home(dir: Seq<char>, home: Seq<char>)
    ensures
        forall|k: int|
            0 <= k < search_dirs(dir, home).len() ==> under_home(
                #[trigger] search_dirs(dir, home)[k],
                home,
            ) || same_dir(search_dirs(dir, home)[k], home),
{
    if search_dirs(dir, home).len() > 0 {
        lemma_walk_under(dir, home);
    }
}

proof fn lemma_members_present(
    procs: Seq<ProcessMemory>,
    ks: Seq<(GroupKind, Seq<char>)>,
    name: Seq<char>,
)
    requires
        procs.len() == ks.len(),
        names_contain(ks, name),
    ensures
        members(procs, ks, name).len() > 0,
    decreases procs.len(),
{
    if ks.last().1 != name {
        assert(names_contain(ks.drop_last(), name)) by {
            let i = choose|i: int| 0 <= i < ks.len() && (#[trigger] ks[i]).1 == name;
            assert(i < ks.len() - 1);
            assert(ks.drop_last()[i] == ks[i]);
        }
        lemma_members_present(procs.drop_last(), ks.drop_last(), name);
    }
}

/// Every group holds at least one process.
pub proof fn law_groups_not_empty(
    procs: Seq<ProcessMemory>,
    mode: GroupMode,
    home: Seq<char>,
    roots: Seq<Option<Seq<char>>>,
    r: Seq<AppGroup>,
)
    requires
        grouped(procs, mode, home, roots, r),
    ensures
        forall|g: int| 0 <= g < r.len() ==> (#[trigger] r[g]).processes@.len() > 0,
{
    let ks = keys_of(procs, mode, roots);
    let names = distinct_names(ks);
    let u = choose|u: Seq<AppGroup>|
        {
            &&& u.len() == names.len()
            &&& forall|i: int| 0 <= i < u.len() ==> group_for(#[trigger] u[i], procs, ks, names[i], home)
            &&& stable_sort_of(r, u, by_total_desc())
        };
    let p = choose|p: Seq<int>| stable_witness(r, u, by_total_desc(), p);
    assert forall|g: int| 0 <= g < r.len() implies (#[trigger] r[g]).processes@.len() > 0 by {
        let k = p[g];
        assert(r[g] == u[k]);
        assert(group_for(u[k], procs, ks, names[k], home));
        crate::group::lemma_distinct_names_contain(ks, names[k]);
        assert(names.contains(names[k]));
        lemma_members_present(procs, ks, names[k]);
        let q = choose|q: Seq<int>| stable_witness(
            u[k].processes@,
            members(procs, ks, names[k]),
            by_rss_desc(),
            q,
        );
    }
}

/// The runtime family of a runtime family is itself, given that lowercasing
/// leaves the family as it is and does not put a `-` in front of a name that
/// had none.
pub proof fn law_runtime_family_idempotent(name: Seq<char>)
    requires
        lowercase(runtime_family_of(name)) == runtime_family_of(name),
        lowercase(strip_leading(name, '-')).len() == 0 || lowercase(strip_leading(name, '-'))[0]
            != '-',
    ensures
        runtime_family_of(runtime_family_of(name)) == runtime_family_of(name),
{
    let l = lowercase(strip_leading(name, '-'));
    let f = family_rule(l);
    reveal_strlit("node");
    reveal_strlit("node-repl");
    reveal_strlit("npm");
    reveal_strlit("npx");
    reveal_strlit("yarn");
    reveal_strlit("pnpm");
    reveal_strlit("bun");
    reveal_strlit("deno");
    reveal_strlit("python");
    reveal_strlit("python2");
    reveal_strlit("python3");
    reveal_strlit("uv");
    reveal_strlit("poetry");
    reveal_strlit("ruby");
    reveal_strlit("rails");
    reveal_strlit("bundle");
    reveal_strlit("rake");
    reveal_strlit("go");
    assert(f.len() == 0 || f[0] != '-');
    assert(strip_leading(f, '-') == f);
    if f == l {
        assert(family_rule(f) == f);
    } else if f == "python"@ {
        assert(!("python3"@.is_prefix_of("python"@)));
        assert(family_rule(f) == f);
    } else {
        assert(family_rule(f) == f);
    }
}

/// What a group holds: its name, kind, processes and totals.
pub open spec fn group_view(g: AppGroup) -> (Seq<char>, GroupKind, Seq<ProcessMemory>, u64, u64, usize) {
    (g.name@, g.kind, g.processes@, g.total_rss, g.total_swap, g.thread_count)
}

spec fn view_total_desc() -> spec_fn(
    (Seq<char>, GroupKind, Seq<ProcessMemory>, u64, u64, usize),
    (Seq<char>, GroupKind, Seq<ProcessMemory>, u64, u64, usize),
) -> bool {
    |x: (Seq<char>, GroupKind, Seq<ProcessMemory>, u64, u64, usize), y: (
        Seq<char>,
        GroupKind,
        Seq<ProcessMemory>,
        u64,
        u64,
        usize,
    )| sat_add(x.3, x.4) >= sat_add(y.3, y.4)
}

/// Grouping is a function of its input: for the same processes, mode, home
/// and project roots there is one grouping, the same groups in the same
/// order, each with the same name, kind, processes (in the same order) and
/// totals.
pub proof fn law_grouping_is_unique(
    procs: Seq<ProcessMemory>,
    mode: GroupMode,
    home: Seq<char>,
    roots: Seq<Option<Seq<char>>>,
    r1: Seq<AppGroup>,
    r2: Seq<AppGroup>,
)
    requires
        grouped(procs, mode, home, roots, r1),
        grouped(procs, mode, home, roots, r2),
    ensures
        r1.len() == r2.len(),
        forall|i: int| 0 <= i < r1.len() ==> group_view(#[trigger] r1[i]) == group_view(r2[i]),
{
    let ks = keys_of(procs, mode, roots);
    let names = distinct_names(ks);
    let u1 = choose|u: Seq<AppGroup>|
        {
            &&& u.len() == names.len()
            &&& forall|i: int| 0 <= i < u.len() ==> group_for(#[trigger] u[i], procs, ks, names[i], home)
            &&& stable_sort_of(r1, u, by_total_desc())
        };
    let u2 = choose|u: Seq<AppGroup>|
        {
            &&& u.len() == names.len()
            &&& forall|i: int| 0 <= i < u.len() ==> group_for(#[trigger] u[i], procs, ks, names[i], home)
            &&& stable_sort_of(r2, u, by_total_desc())
        };
    let gv = |g: AppGroup| group_view(g);
    assert forall|k: int| 0 <= k < u1.len() implies gv(#[trigger] u1[k]) == gv(u2[k]) by {
        assert(group_for(u1[k], procs, ks, names[k], home));
        assert(group_for(u2[k], procs, ks, names[k], home));
        lemma_stable_sort_unique(
            u1[k].processes@,
            u2[k].processes@,
            members(procs, ks, names[k]),
            by_rss_desc(),
        );
    }
    assert(u1.map_values(gv) =~= u2.map_values(gv));
    let le2 = view_total_desc();
    assert forall|a: AppGroup, b: AppGroup| #[trigger] by_total_desc()(a, b) == le2(gv(a), gv(b)) by {}
    lemma_stable_sort_map(r1, u1, by_total_desc(), gv, le2);
    lemma_stable_sort_map(r2, u2, by_total_desc(), gv, le2);
    lemma_stable_sort_unique(r1.map_values(gv), r2.map_values(gv), u1.map_values(gv), le2);
    assert forall|i: int| 0 <= i < r1.len() implies group_view(#[trigger] r1[i]) == group_view(r2[i]) by {
        assert(r1.map_values(gv)[i] == gv(r1[i]));
        assert(r2.map_values(gv)[i] == gv(r2[i]));
    }
}

/// The totals of every group are the sums over its own processes: resident
/// memory, swap and threads.
pub proof fn law_group_totals_are_member_sums(
    procs: Seq<ProcessMemory>,
    mode: GroupMode,
    home: Seq<char>,
    roots: Seq<Option<Seq<char>>>,
    r: Seq<AppGroup>,
)
    requires
        grouped(procs, mode, home, roots, r),
    ensures
        forall|g: int|
            0 <= g < r.len() ==> (#[trigger] r[g]).total_rss == seq_sum(r[g].processes@, rss_of())
                && r[g].total_swap == seq_sum(r[g].processes@, swap_of()) && r[g].thread_count
                == seq_sum(r[g].processes@, threads_of()),
{
    let ks = keys_of(procs, mode, roots);
    let names = distinct_names(ks);
    let u = choose|u: Seq<AppGroup>|
        {
            &&& u.len() == names.len()
            &&& forall|i: int| 0 <= i < u.len() ==> group_for(#[trigger] u[i], procs, ks, names[i], home)
            &&& stable_sort_of(r, u, by_total_desc())
        };
    let p = choose|p: Seq<int>| stable_witness(r, u, by_total_desc(), p);
    assert forall|g: int| 0 <= g < r.len() implies (#[trigger] r[g]).total_rss == seq_sum(
        r[g].processes@,
        rss_of(),
    ) && r[g].total_swap == seq_sum(r[g].processes@, swap_of()) && r[g].thread_count == seq_sum(
        r[g].processes@,
        threads_of(),
    ) by {
        assert(r[g] == u[p[g]]);
        assert(group_for(u[p[g]], procs, ks, names[p[g]], home));
    }
}

/// Every probed path is a marker file of one of the directories.
proof fn lemma_probe_is_marker(ds: Seq<Seq<char>>, k: int)
    requires
        0 <= k < probes_over(ds).len(),
    ensures
        exists|i: int, m: int|
            0 <= i < ds.len() && 0 <= m < markers().len() && probes_over(ds)[k] == join(
                #[trigger] ds[i],
                #[trigger] markers()[m],
            ),
    decreases ds.len(),
{
    let n = markers().len() as int;
    assert(dir_probes(ds[0]).len() == n);
    if k < n {
        assert(probes_over(ds)[k] == dir_probes(ds[0])[k]);
        assert(probes_over(ds)[k] == join(ds[0], markers()[k]));
    } else {
        let rest = ds.drop_first();
        assert(probes_over(ds)[k] == probes_over(rest)[k - n]);
        lemma_probe_is_marker(rest, k - n);
        let (i, m) = choose|i: int, m: int|
            0 <= i < rest.len() && 0 <= m < markers().len() && probes_over(rest)[k - n] == join(
                #[trigger] rest[i],
                #[trigger] markers()[m],
            );
        assert(ds[i + 1] == rest[i]);
        assert(probes_over(ds)[k] == join(ds[i + 1], markers()[m]));
    }
}

/// Some directory holding a marker gives a first one.
proof fn lemma_first_marked_some(ds: Seq<Seq<char>>, existing: Seq<Seq<char>>, i: int)
    requires
        0 <= i < ds.len(),
        has_marker(ds[i], existing),
    ensures
        first_marked(ds, existing) is Some,
    decreases ds.len(),
{
    if !has_marker(ds[0], existing) {
        assert(i > 0);
        assert(ds.drop_first()[i - 1] == ds[i]);
        lemma_first_marked_some(ds.drop_first(), existing, i - 1);
    }
}

/// The disk search of a directory finds a project root exactly when the disk
/// reported one of the probed marker files present; when it reported none,
/// every marker file of every searched directory was asked about. The root
/// found is then the nearest searched directory whose marker was reported
/// (`law_nearest_marker_wins` with that file as the one existing).
pub proof fn law_root_found_iff_marker_reported(dir: Seq<char>, home: Seq<char>, answers: Seq<bool>)
    requires
        probe_answers_shape(answers, marker_probes(dir, home).len()),
    ensures
        marker_root(dir, home, first_reported_path(marker_probes(dir, home), answers)) is Some
            <==> (exists|k: int| 0 <= k < answers.len() && #[trigger] answers[k]),
        (forall|k: int| 0 <= k < answers.len() ==> !#[trigger] answers[k]) ==> answers.len()
            == marker_probes(dir, home).len(),
{
    let probes = marker_probes(dir, home);
    let ds = search_dirs(dir, home);
    if answers.len() > 0 && answers[answers.len() - 1] {
        let k = answers.len() - 1;
        lemma_last_path_reported(probes, answers);
        let e = seq![probes[k]];
        lemma_probe_is_marker(ds, k);
        let (i, m) = choose|i: int, m: int|
            0 <= i < ds.len() && 0 <= m < markers().len() && probes_over(ds)[k] == join(
                #[trigger] ds[i],
                #[trigger] markers()[m],
            );
        assert(e.contains(join(ds[i], markers()[m]))) by {
            assert(e[0] == join(ds[i], markers()[m]));
        }
        assert(has_marker(ds[i], e));
        lemma_first_marked_some(ds, e, i);
    } else {
        assert forall|k: int| 0 <= k < answers.len() implies !#[trigger] answers[k] by {
            if k < answers.len() - 1 {
            }
        }
        lemma_no_path_reported(probes, answers);
        lemma_first_marked_none(ds);
    }
}

/// Browsers are named by their process names, whatever the command line:
/// a name whose lowercase starts with `google chrome` or holds `chrome
/// helper` is Google Chrome; otherwise one that holds `firefox` is Firefox;
/// otherwise one that starts with `safari` (Safari's helpers and content
/// processes) or holds `safariweb` is Safari.
pub proof fn law_browsers_by_name(name: Seq<char>, cmdline: Seq<char>)
    ensures
        ("google chrome"@.is_prefix_of(lowercase(name)) || contains_seq(
            lowercase(name),
            "chrome helper"@,
        )) ==> canonical_app(name, cmdline) == "Google Chrome"@,
        !("google chrome"@.is_prefix_of(lowercase(name)) || contains_seq(
            lowercase(name),
            "chrome helper"@,
        )) && contains_seq(lowercase(name), "firefox"@) ==> canonical_app(name, cmdline)
            == "Firefox"@,
        !contains_seq(lowercase(name), "chrome helper"@) && !contains_seq(
            lowercase(name),
            "firefox"@,
        ) && ("safari"@.is_prefix_of(lowercase(name)) || (contains_seq(
            lowercase(name),
            "safariweb"@,
        ) && !"google chrome"@.is_prefix_of(lowercase(name)))) ==> canonical_app(name, cmdline)
            == "Safari"@,
{
    let n = lowercase(name);
    reveal_strlit("google chrome");
    reveal_strlit("firefox");
    reveal_strlit("safari");
    if "safari"@.is_prefix_of(n) {
        assert(n.subrange(0, 6)[0] == n[0]);
        assert("safari"@[0] == 's');
        assert(n[0] == 's');
        assert(!"google chrome"@.is_prefix_of(n)) by {
            if "google chrome"@.is_prefix_of(n) {
                assert(n.subrange(0, 13)[0] == n[0]);
                assert(n[0] == "google chrome"@[0]);
            }
        }
        assert(!"firefox"@.is_prefix_of(n)) by {
            if "firefox"@.is_prefix_of(n) {
                assert(n.subrange(0, 7)[0] == n[0]);
                assert(n[0] == "firefox"@[0]);
            }
        }
        if !contains_seq(n, "chrome helper"@) && !contains_seq(n, "firefox"@) {
            assert(app_name_rule(name, n, cmdline) == "Safari"@);
        }
    }
    if contains_seq(n, "safariweb"@) && !"google chrome"@.is_prefix_of(n) && !contains_seq(
        n,
        "chrome helper"@,
    ) && !contains_seq(n, "firefox"@) {
        assert(!"firefox"@.is_prefix_of(n)) by {
            if "firefox"@.is_prefix_of(n) {
                assert(contains_seq(n, "firefox"@)) by {
                    assert(crate::text::occurs_at(n, "firefox"@, 0));
                }
            }
        }
        assert(app_name_rule(name, n, cmdline) == "Safari"@);
    }
}

/// The runtime families: after a leading `-` is dropped and the name
/// lowercased, `node`, `node-repl`, `npm`, `npx`, `yarn` and `pnpm` are
/// node; `python`, `python2`, names starting with `python3`, `uv` and
/// `poetry` are python; `ruby`, `rails`, `bundle` and `rake` are ruby;
/// `bun`, `deno` and `go` are themselves; any other name is its lowercase.
pub proof fn law_runtime_family_table(name: Seq<char>)
    ensures
        ({
            let l = lowercase(strip_leading(name, '-'));
            &&& (l == "node"@ || l == "node-repl"@ || l == "npm"@ || l == "npx"@ || l == "yarn"@
                || l == "pnpm"@) ==> runtime_family_of(name) == "node"@
            &&& (l == "python"@ || l == "python2"@ || "python3"@.is_prefix_of(l) || l == "uv"@ || l
                == "poetry"@) ==> runtime_family_of(name) == "python"@
            &&& (l == "ruby"@ || l == "rails"@ || l == "bundle"@ || l == "rake"@)
                ==> runtime_family_of(name) == "ruby"@
            &&& l == "bun"@ ==> runtime_family_of(name) == "bun"@
            &&& l == "deno"@ ==> runtime_family_of(name) == "deno"@
            &&& l == "go"@ ==> runtime_family_of(name) == "go"@
            &&& !(l == "node"@ || l == "node-repl"@ || l == "npm"@ || l == "npx"@ || l == "yarn"@
                || l == "pnpm"@ || l == "python"@ || l == "python2"@ || "python3"@.is_prefix_of(l)
                || l == "uv"@ || l == "poetry"@ || l == "ruby"@ || l == "rails"@ || l == "bundle"@
                || l == "rake"@ || l == "bun"@ || l == "deno"@ || l == "go"@)
                ==> runtime_family_of(name) == l
        }),
{
    reveal_strlit("node");
    reveal_strlit("node-repl");
    reveal_strlit("npm");
    reveal_strlit("npx");
    reveal_strlit("yarn");
    reveal_strlit("pnpm");
    reveal_strlit("bun");
    reveal_strlit("deno");
    reveal_strlit("python");
    reveal_strlit("python2");
    reveal_strlit("python3");
    reveal_strlit("uv");
    reveal_strlit("poetry");
    reveal_strlit("ruby");
    reveal_strlit("rails");
    reveal_strlit("bundle");
    reveal_strlit("rake");
    reveal_strlit("go");
    let l = lowercase(strip_leading(name, '-'));
    assert("node"@[0] == 'n' && "node-repl"@[0] == 'n' && "npm"@[0] == 'n' && "npx"@[0] == 'n');
    assert("yarn"@[0] == 'y' && "pnpm"@[0] == 'p' && "bun"@[0] == 'b' && "deno"@[0] == 'd');
    assert("python"@[0] == 'p' && "python2"@[0] == 'p' && "uv"@[0] == 'u' && "poetry"@[0] == 'p');
    assert("ruby"@[0] == 'r' && "rails"@[0] == 'r' && "bundle"@[0] == 'b' && "rake"@[0] == 'r');
    assert("go"@[0] == 'g' && "python3"@[0] == 'p');
    if "python3"@.is_prefix_of(l) {
        assert(l.subrange(0, 7)[0] == l[0]);
        assert(l[0] == 'p');
        assert(l.len() >= 7);
    }
}

proof fn lemma_word_probe(ws: Seq<Seq<char>>, home: Seq<char>, k: int)
    requires
        0 <= k < word_probes(ws, home).len(),
    ensures
        exists|w: int, kk: int|
            0 <= w < ws.len() && (home + seq!['/']).is_prefix_of(#[trigger] ws[w]) && 0 <= kk
                < marker_probes(ws[w], home).len() && word_probes(ws, home)[k] == #[trigger] marker_probes(
                ws[w],
                home,
            )[kk],
    decreases ws.len(),
{
    let head = if (home + seq!['/']).is_prefix_of(ws[0]) {
        marker_probes(ws[0], home)
    } else {
        Seq::<Seq<char>>::empty()
    };
    let rest = ws.drop_first();
    assert(word_probes(ws, home) == head + word_probes(rest, home));
    if k < head.len() {
        assert(word_probes(ws, home)[k] == marker_probes(ws[0], home)[k]);
    } else {
        assert(word_probes(ws, home)[k] == word_probes(rest, home)[k - head.len()]);
        lemma_word_probe(rest, home, k - head.len());
        let (w, kk) = choose|w: int, kk: int|
            0 <= w < rest.len() && (home + seq!['/']).is_prefix_of(#[trigger] rest[w]) && 0 <= kk
                < marker_probes(rest[w], home).len() && word_probes(rest, home)[k - head.len()]
                == #[trigger] marker_probes(rest[w], home)[kk];
        assert(ws[w + 1] == rest[w]);
    }
}

proof fn lemma_root_from_words_some(ws: Seq<Seq<char>>, home: Seq<char>, e: Seq<Seq<char>>, w: int)
    requires
        0 <= w < ws.len(),
        (home + seq!['/']).is_prefix_of(ws[w]),
        marker_root(ws[w], home, e) is Some,
    ensures
        root_from_words(ws, home, e) is Some,
    decreases ws.len(),
{
    if !((home + seq!['/']).is_prefix_of(ws[0]) && marker_root(ws[0], home, e) is Some) {
        assert(w > 0);
        assert(ws.drop_first()[w - 1] == ws[w]);
        lemma_root_from_words_some(ws.drop_first(), home, e, w - 1);
    }
}

/// A path marked present makes the directory it is a marker of have a root.
proof fn lemma_marked_probe_roots(dir: Seq<char>, home: Seq<char>, kk: int)
    requires
        0 <= kk < marker_probes(dir, home).len(),
    ensures
        marker_root(dir, home, seq![marker_probes(dir, home)[kk]]) is Some,
{
    let ds = search_dirs(dir, home);
    let e = seq![marker_probes(dir, home)[kk]];
    lemma_probe_is_marker(ds, kk);
    let (i, m) = choose|i: int, m: int|
        0 <= i < ds.len() && 0 <= m < markers().len() && probes_over(ds)[kk] == join(
            #[trigger] ds[i],
            #[trigger] markers()[m],
        );
    assert(e.contains(join(ds[i], markers()[m]))) by {
        assert(e[0] == join(ds[i], markers()[m]));
    }
    assert(has_marker(ds[i], e));
    lemma_first_marked_some(ds, e, i);
}

/// The disk search of a process finds a project root exactly when the disk
/// reported one of its probed marker files present (of its working
/// directory's search, or of a command-line path's below home); when it
/// reported none, every probed path was asked about.
pub proof fn law_project_root_found_iff_reported(
    cwd: Seq<char>,
    cmdline: Seq<char>,
    home: Seq<char>,
    answers: Seq<bool>,
)
    requires
        probe_answers_shape(answers, root_probes(cwd, cmdline, home).len()),
    ensures
        project_root(cwd, cmdline, home, first_reported_path(root_probes(cwd, cmdline, home), answers))
            is Some <==> (exists|k: int| 0 <= k < answers.len() && #[trigger] answers[k]),
        (forall|k: int| 0 <= k < answers.len() ==> !#[trigger] answers[k]) ==> answers.len()
            == root_probes(cwd, cmdline, home).len(),
{
    let probes = root_probes(cwd, cmdline, home);
    let cp = marker_probes(cwd, home);
    let ws = crate::text::words(cmdline);
    if answers.len() > 0 && answers[answers.len() - 1] {
        let k = answers.len() - 1;
        lemma_last_path_reported(probes, answers);
        let e = seq![probes[k]];
        if k < cp.len() {
            assert(probes[k] == cp[k]);
            lemma_marked_probe_roots(cwd, home, k);
        } else {
            assert(probes[k] == word_probes(ws, home)[k - cp.len()]);
            lemma_word_probe(ws, home, k - cp.len());
            let (w, kk) = choose|w: int, kk: int|
                0 <= w < ws.len() && (home + seq!['/']).is_prefix_of(#[trigger] ws[w]) && 0 <= kk
                    < marker_probes(ws[w], home).len() && word_probes(ws, home)[k - cp.len()]
                    == #[trigger] marker_probes(ws[w], home)[kk];
            lemma_marked_probe_roots(ws[w], home, kk);
            assert(e == seq![marker_probes(ws[w], home)[kk]]);
            lemma_root_from_words_some(ws, home, e, w);
        }
    } else {
        assert forall|k: int| 0 <= k < answers.len() implies !#[trigger] answers[k] by {
            if k < answers.len() - 1 {
            }
        }
        lemma_no_path_reported(probes, answers);
        lemma_first_marked_none(search_dirs(cwd, home));
        lemma_root_from_words_empty(ws, home);
    }
}

proof fn lemma_first_kind_project(ks: Seq<(GroupKind, Seq<char>)>, name: Seq<char>)
    requires
        names_contain(ks, name),
        forall|j: int| 0 <= j < ks.len() && (#[trigger] ks[j]).1 == name ==> ks[j].0 == GroupKind::Project,
    ensures
        crate::group::first_kind(ks, name) == GroupKind::Project,
    decreases ks.len(),
{
    let init = ks.drop_last();
    if names_contain(init, name) {
        assert forall|j: int| 0 <= j < init.len() && (#[trigger] init[j]).1 == name implies init[j].0
            == GroupKind::Project by {
            assert(init[j] == ks[j]);
        }
        lemma_first_kind_project(init, name);
    } else {
        let i = choose|i: int| 0 <= i < ks.len() && (#[trigger] ks[i]).1 == name;
        if i < ks.len() - 1 {
            assert(init[i] == ks[i]);
        }
        assert(ks[ks.len() - 1].1 == name);
    }
}

proof fn lemma_member_of(procs: Seq<ProcessMemory>, ks: Seq<(GroupKind, Seq<char>)>, i: int)
    requires
        procs.len() == ks.len(),
        0 <= i < procs.len(),
    ensures
        members(procs, ks, ks[i].1).contains(procs[i]),
    decreases procs.len(),
{
    let m = members(procs.drop_last(), ks.drop_last(), ks[i].1);
    if i == procs.len() - 1 {
        assert(members(procs, ks, ks[i].1) == m.push(procs[i]));
        assert(m.push(procs[i])[m.len() as int] == procs[i]);
    } else {
        assert(ks.drop_last()[i] == ks[i]);
        assert(procs.drop_last()[i] == procs[i]);
        lemma_member_of(procs.drop_last(), ks.drop_last(), i);
        let j = choose|j: int| 0 <= j < m.len() && m[j] == procs[i];
        if ks.last().1 == ks[i].1 {
            assert(m.push(procs.last())[j] == procs[i]);
        }
    }
}

/// In project mode a process with a project root lands in a project group
/// named by that root (home shortened to `~`), provided no process has that
/// path as its app name.
pub proof fn law_rooted_process_in_project_group(
    procs: Seq<ProcessMemory>,
    home: Seq<char>,
    roots: Seq<Option<Seq<char>>>,
    r: Seq<AppGroup>,
    i: int,
)
    requires
        grouped(procs, GroupMode::Project, home, roots, r),
        roots.len() == procs.len(),
        0 <= i < procs.len(),
        roots[i] is Some,
        forall|j: int| 0 <= j < procs.len() ==> canonical_app(#[trigger] procs[j].name@, procs[j].cmdline@) != roots[i]->0,
    ensures
        exists|g: int|
            0 <= g < r.len() && (#[trigger] r[g]).kind == GroupKind::Project && r[g].name@ == shorten(
                roots[i]->0,
                home,
            ) && r[g].processes@.contains(procs[i]),
{
    broadcast use vstd::seq_lib::group_to_multiset_ensures;

    let d = roots[i]->0;
    let ks = keys_of(procs, GroupMode::Project, roots);
    let names = distinct_names(ks);
    assert(ks[i] == (GroupKind::Project, d));
    assert(names_contain(ks, d));
    crate::group::lemma_distinct_names_contain(ks, d);
    let k = choose|k: int| 0 <= k < names.len() && names[k] == d;
    let u = choose|u: Seq<AppGroup>|
        {
            &&& u.len() == names.len()
            &&& forall|x: int| 0 <= x < u.len() ==> group_for(#[trigger] u[x], procs, ks, names[x], home)
            &&& stable_sort_of(r, u, by_total_desc())
        };
    assert(group_for(u[k], procs, ks, d, home));
    assert forall|j: int| 0 <= j < ks.len() && (#[trigger] ks[j]).1 == d implies ks[j].0
        == GroupKind::Project by {
        assert(ks[j] == crate::group::key_of(procs[j], GroupMode::Project, roots[j]));
        if roots[j] is None {
            assert(canonical_app(procs[j].name@, procs[j].cmdline@) != d);
        }
    }
    lemma_first_kind_project(ks, d);
    lemma_member_of(procs, ks, i);
    let mem = members(procs, ks, d);
    assert(u[k].processes@.to_multiset() == mem.to_multiset());
    assert(mem.to_multiset().count(procs[i]) > 0);
    assert(u[k].processes@.contains(procs[i]));
    assert(u.contains(u[k]));
    assert(r.to_multiset() == u.to_multiset());
    assert(u.to_multiset().count(u[k]) > 0);
    assert(r.to_multiset().count(u[k]) > 0);
    assert(r.contains(u[k]));
    let g = choose|g: int| 0 <= g < r.len() && r[g] == u[k];
    assert(r[g].kind == GroupKind::Project);
}

/// In app mode the bridge of an app group is empty exactly when none of its
/// processes has a project root, given roots that are paths (not empty).
pub proof fn law_bridge_empty_iff_no_project(
    g: AppGroup,
    home: Seq<char>,
    roots: Seq<Option<Seq<char>>>,
    text: Seq<char>,
)
    requires
        g.kind == GroupKind::App,
        bridge_text(g, GroupMode::App, home, roots, text),
        forall|i: int| 0 <= i < roots.len() ==> (#[trigger] roots[i] matches Some(d) ==> d.len() > 0),
    ensures
        text.len() == 0 <==> (forall|i: int| 0 <= i < roots.len() ==> #[trigger] roots[i] is None),
{
    let sr = shortened_roots(roots, home);
    lemma_shortened_roots(roots, home);
    lemma_dedup(sr);
    if sr.len() > 0 {
        assert(dedup(sr).contains(sr[0])) by {
            assert(sr.contains(sr[0]));
        }
        let dd = dedup(sr);
        if dd.len() == 1 {
            assert(dd[0].len() > 0);
        } else {
            assert(dd.len() >= 2);
            reveal_strlit(" projects");
            assert((crate::text::decimal(dd.len()) + " projects"@).len() > 0);
        }
    } else {
        assert(dedup(sr).len() == 0);
    }
}

proof fn lemma_shortened_roots(roots: Seq<Option<Seq<char>>>, home: Seq<char>)
    requires
        forall|i: int| 0 <= i < roots.len() ==> (#[trigger] roots[i] matches Some(d) ==> d.len() > 0),
    ensures
        shortened_roots(roots, home).len() == 0 <==> (forall|i: int| 0 <= i < roots.len() ==> #[trigger] roots[i] is None),
        forall|j: int| 0 <= j < shortened_roots(roots, home).len() ==> (#[trigger] shortened_roots(roots, home)[j]).len() > 0,
    decreases roots.len(),
{
    if roots.len() > 0 {
        let init = roots.drop_last();
        assert forall|i: int| 0 <= i < init.len() implies (#[trigger] init[i] matches Some(d) ==> d.len() > 0) by {
            assert(init[i] == roots[i]);
        }
        lemma_shortened_roots(init, home);
        let r0 = shortened_roots(init, home);
        match roots.last() {
            Some(d) => {
                assert(roots[roots.len() - 1] is Some);
                reveal_strlit("~");
                reveal_strlit("~/");
                assert(shorten(d, home).len() > 0);
                assert forall|j: int| 0 <= j < r0.push(shorten(d, home)).len() implies (#[trigger] r0.push(shorten(d, home))[j]).len() > 0 by {
                    if j < r0.len() {
                        assert(r0.push(shorten(d, home))[j] == r0[j]);
                    }
                }
            },
            None => {
                assert(shortened_roots(roots, home) == r0);
                if r0.len() == 0 {
                    assert forall|i: int| 0 <= i < roots.len() implies #[trigger] roots[i] is None by {
                        if i < init.len() {
                            assert(init[i] == roots[i]);
                        }
                    }
                } else {
                    let i = choose|i: int| 0 <= i < init.len() && !(#[trigger] init[i] is None);
                    assert(init[i] == roots[i]);
                    assert(!(roots[i] is None));
                }
            },
        }
    }
}

} // verus!
