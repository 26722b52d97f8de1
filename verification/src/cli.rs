//! The computations behind the command-line listing: which processes get a
//! swap measurement, how measurements are applied, and how rows are ordered.
use vstd::prelude::*;
use crate::group::{rss_of, swap_of, sums_fit};
use crate::scanner::{ProcessMemory, sat_sub};
use crate::sort::{seq_sum, stable_sort, stable_sort_of, total_preorder};
use vstd::string::StringSliceAdditionalSpecFns;
use crate::text::{chars_of, lemma_lex_total, lemma_lex_trans, lex_le, lex_le_chars, same};

verus! {

/// Processes with at least this much resident memory get their swap measured.
pub const DEEP_SCAN_MIN_RSS: u64 = 5 * 1024 * 1024;

/// Swap left unexplained beyond this many bytes is worth a note.
pub const UNACCOUNTED_NOTE_MIN: u64 = 100 * 1024 * 1024;

/// The pids of the processes whose swap is measured, in order.
pub open spec fn deep_scan_set(ps: Seq<ProcessMemory>) -> Seq<i32>
    decreases ps.len(),
{
    if ps.len() == 0 {
        Seq::empty()
    } else {
        let r = deep_scan_set(ps.drop_last());
        if ps.last().rss >= DEEP_SCAN_MIN_RSS {
            r.push(ps.last().pid)
        } else {
            r
        }
    }
}

/// The pids of the processes with at least 5 MiB resident, in order.
pub fn deep_scan_pids(processes: &Vec<ProcessMemory>) -> (r: Vec<i32>)
    ensures
        r@ == deep_scan_set(processes@),
{
    let mut r: Vec<i32> = Vec::new();
    let mut i: usize = 0;
    assert(processes@.take(0) =~= Seq::<ProcessMemory>::empty());
    while i < processes.len()
        invariant
            i <= processes.len(),
            r@ == deep_scan_set(processes@.take(i as int)),
        decreases processes.len() - i,
    {
        assert(processes@.take(i + 1).drop_last() =~= processes@.take(i as int));
        if processes[i].rss >= DEEP_SCAN_MIN_RSS {
            r.push(processes[i].pid);
        }
        i += 1;
    }
    assert(processes@.take(processes.len() as int) =~= processes@);
    r
}

/// The swap measured for `pid`: the last measurement recorded for it.
pub open spec fn swap_lookup(m: Seq<(i32, u64)>, pid: i32) -> Option<u64>
    decreases m.len(),
{
    if m.len() == 0 {
        None
    } else if m.last().0 == pid {
        Some(m.last().1)
    } else {
        swap_lookup(m.drop_last(), pid)
    }
}

/// The process with its swap replaced by the measurement for its pid, if any.
pub open spec fn with_swap(p: ProcessMemory, m: Seq<(i32, u64)>) -> ProcessMemory {
    match swap_lookup(m, p.pid) {
        Some(s) => ProcessMemory { swap: s, ..p },
        None => p,
    }
}

/// The processes with their swap replaced by the measurements.
pub open spec fn all_with_swap(ps: Seq<ProcessMemory>, m: Seq<(i32, u64)>) -> Seq<ProcessMemory> {
    ps.map_values(|p: ProcessMemory| with_swap(p, m))
}

/// The measurement recorded last for `pid`.
pub fn find_swap(m: &Vec<(i32, u64)>, pid: i32) -> (r: Option<u64>)
    ensures
        r == swap_lookup(m@, pid),
{
    let mut i = m.len();
    assert(m@.take(i as int) =~= m@);
    while i > 0
        invariant
            i <= m.len(),
            swap_lookup(m@, pid) == swap_lookup(m@.take(i as int), pid),
        decreases i,
    {
        assert(m@.take(i as int).drop_last() =~= m@.take(i - 1));
        if m[i - 1].0 == pid {
            return Some(m[i - 1].1);
        }
        i -= 1;
    }
    None
}

/// Sets each process's swap to the measurement recorded for its pid; the
/// others keep theirs.
pub fn apply_swap(processes: &mut Vec<ProcessMemory>, measured: &Vec<(i32, u64)>)
    ensures
        final(processes)@ == all_with_swap(old(processes)@, measured@),
{
    let ghost orig = processes@;
    let mut i: usize = 0;
    while i < processes.len()
        invariant
            i <= processes.len(),
            processes@.len() == orig.len(),
            forall|j: int| 0 <= j < i ==> processes@[j] == with_swap(orig[j], measured@),
            forall|j: int| i <= j < orig.len() ==> processes@[j] == orig[j],
        decreases processes.len() - i,
    {
        match find_swap(measured, processes[i].pid) {
            Some(s) => {
                let mut p = processes[i].duplicate();
                p.swap = s;
                processes.set(i, p);
            },
            None => {},
        }
        i += 1;
    }
    assert(processes@ =~= all_with_swap(orig, measured@));
}

/// The processes that hold some memory, in order.
pub open spec fn nonzero(ps: Seq<ProcessMemory>) -> Seq<ProcessMemory>
    decreases ps.len(),
{
    if ps.len() == 0 {
        Seq::empty()
    } else {
        let r = nonzero(ps.drop_last());
        if ps.last().spec_total() > 0 {
            r.push(ps.last())
        } else {
            r
        }
    }
}

/// Drops the processes whose resident plus swapped bytes are zero.
pub fn retain_nonzero(processes: Vec<ProcessMemory>) -> (r: Vec<ProcessMemory>)
    ensures
        r@ == nonzero(processes@),
{
    let mut r: Vec<ProcessMemory> = Vec::new();
    let mut i: usize = 0;
    assert(processes@.take(0) =~= Seq::<ProcessMemory>::empty());
    while i < processes.len()
        invariant
            i <= processes.len(),
            r@ == nonzero(processes@.take(i as int)),
        decreases processes.len() - i,
    {
        assert(processes@.take(i + 1).drop_last() =~= processes@.take(i as int));
        if processes[i].total() > 0 {
            r.push(processes[i].duplicate());
        }
        i += 1;
    }
    assert(processes@.take(processes.len() as int) =~= processes@);
    r
}

/// The order of the flat listing for a `--sort` value: `rss`, `swap` and
/// anything else (total) largest first, `name` alphabetically.
pub open spec fn listing_order(sort: Seq<char>) -> spec_fn(ProcessMemory, ProcessMemory) -> bool {
    |a: ProcessMemory, b: ProcessMemory|
        if sort == "rss"@ {
            a.rss >= b.rss
        } else if sort == "swap"@ {
            a.swap >= b.swap
        } else if sort == "name"@ {
            lex_le(a.name@, b.name@)
        } else {
            a.spec_total() >= b.spec_total()
        }
}

proof fn lemma_listing_order(sort: Seq<char>)
    ensures
        total_preorder(listing_order(sort)),
{
    let le = listing_order(sort);
    assert forall|a: ProcessMemory, b: ProcessMemory| #[trigger] le(a, b) || le(b, a) by {
        lemma_lex_total(a.name@, b.name@);
    }
    assert forall|a: ProcessMemory, b: ProcessMemory, c: ProcessMemory| #[trigger] le(a, b)
        && #[trigger] le(b, c) implies le(a, c) by {
        if sort == "name"@ && sort != "rss"@ && sort != "swap"@ {
            lemma_lex_trans(a.name@, b.name@, c.name@);
        }
    }
}

fn listing_before(key: u8, a: &ProcessMemory, b: &ProcessMemory) -> (r: bool)
    ensures
        key == 0 ==> r == (a.rss >= b.rss),
        key == 1 ==> r == (a.swap >= b.swap),
        key == 2 ==> r == lex_le(a.name@, b.name@),
        key > 2 ==> r == (a.spec_total() >= b.spec_total()),
{
    if key == 0 {
        a.rss >= b.rss
    } else if key == 1 {
        a.swap >= b.swap
    } else if key == 2 {
        lex_le_chars(&chars_of(a.name.as_str()), &chars_of(b.name.as_str()))
    } else {
        a.total() >= b.total()
    }
}

/// The flat listing's rows, stably sorted as `--sort` asks.
pub fn sort_listing(processes: Vec<ProcessMemory>, sort: &str) -> (r: Vec<ProcessMemory>)
    ensures
        stable_sort_of(r@, processes@, listing_order(sort@)),
{
    let sv = chars_of(sort);
    let key: u8 = if same(&sv, &chars_of("rss")) {
        0
    } else if same(&sv, &chars_of("swap")) {
        1
    } else if same(&sv, &chars_of("name")) {
        2
    } else {
        3
    };
    proof {
        lemma_listing_order(sort@);
    }
    stable_sort(
        processes,
        (move |a: &ProcessMemory, b: &ProcessMemory| -> (r: bool)
            ensures
                r == listing_order(sort@)(*a, *b),
            { listing_before(key, a, b) }),
        Ghost(listing_order(sort@)),
    )
}

/// How much of the system's swap the measured processes leave unexplained,
/// when that is more than 100 MiB.
pub fn unaccounted_swap(system_swap_used: u64, processes: &Vec<ProcessMemory>) -> (r: Option<u64>)
    requires
        seq_sum(processes@, swap_of()) <= u64::MAX,
    ensures
        r == if sat_sub(system_swap_used, seq_sum(processes@, swap_of()) as u64)
            > UNACCOUNTED_NOTE_MIN {
            Some(sat_sub(system_swap_used, seq_sum(processes@, swap_of()) as u64))
        } else {
            None
        },
{
    let mut sum: u64 = 0;
    let mut i: usize = 0;
    let ghost ps = processes@;
    assert(ps.take(0) =~= Seq::<ProcessMemory>::empty());
    while i < processes.len()
        invariant
            i <= ps.len(),
            ps == processes@,
            sum == seq_sum(ps.take(i as int), swap_of()),
            seq_sum(ps, swap_of()) <= u64::MAX,
        decreases ps.len() - i,
    {
        assert(ps.take(i + 1).drop_last() =~= ps.take(i as int));
        proof {
            crate::group::lemma_prefix_sum(ps, i + 1, swap_of());
        }
        sum = sum + processes[i].swap;
        i += 1;
    }
    assert(ps.take(i as int) =~= ps);
    let delta = system_swap_used.saturating_sub(sum);
    if delta > UNACCOUNTED_NOTE_MIN {
        Some(delta)
    } else {
        None
    }
}

/// A name cut to `max` bytes for a column: longer names keep their first
/// `max - 1` bytes and end in `…`.
pub fn truncate(s: &str, max: usize) -> (r: String)
    requires
        s.len() > max ==> max >= 1 && vstd::utf8::is_char_boundary(
            s.spec_bytes(),
            max - 1,
        ),
    ensures
        s.len() <= max ==> r@ == s@,
        s.len() > max ==> exists|h: Seq<char>|
            vstd::utf8::encode_utf8(h) == s.spec_bytes().take(max - 1) && r@ == h + "…"@,
{
    if s.len() > max {
        let (head, _rest) = s.split_at(max - 1);
        let mut r = String::from_str(head);
        r.append("…");
        proof {
            assert(head.spec_bytes() =~= s.spec_bytes().take(max - 1));
            assert(vstd::utf8::encode_utf8(head@) == s.spec_bytes().take(max - 1));
            assert(r@ == head@ + "…"@);
        }
        r
    } else {
        String::from_str(s)
    }
}

} // verus!
