//! The process metadata shown in the detail popup, read from `ps` and `lsof`.
use vstd::prelude::*;
use crate::scanner::ProcessMemory;
use crate::text::{
    chars_of, contains, contains_seq, lines_of, parse_i32, parse_i32_spec, slice, split_words,
    starts_with, string_of, text_lines, trim, trim_chars, views, words,
};

verus! {

/// The parent pid that `ps -o ppid=` printed.
pub fn parse_ppid(output: &str) -> (r: Option<i32>)
    ensures
        r == parse_i32_spec(trim(output@)),
{
    parse_i32(&trim_chars(&chars_of(output)))
}

/// The arguments that `ps -o args=` printed, split at whitespace.
pub fn split_args(output: &str) -> (r: Vec<String>)
    ensures
        r@.map_values(|s: String| s@) == words(output@),
{
    let ws = split_words(&chars_of(output));
    let mut r: Vec<String> = Vec::new();
    let mut i: usize = 0;
    while i < ws.len()
        invariant
            i <= ws.len(),
            views(ws@) == words(output@),
            r@.map_values(|s: String| s@) == views(ws@).take(i as int),
        decreases ws.len() - i,
    {
        let ghost before = r@;
        r.push(string_of(&ws[i]));
        assert(r@.map_values(|s: String| s@) =~= before.map_values(|s: String| s@).push(
            ws@[i as int]@,
        ));
        assert(views(ws@).take(i + 1) =~= views(ws@).take(i as int).push(ws@[i as int]@));
        i += 1;
    }
    assert(views(ws@).take(ws.len() as int) =~= views(ws@));
    r
}

/// The path of the first `n/…` line that is not marked `(deleted)`.
pub open spec fn cwd_from_lines(ls: Seq<Seq<char>>) -> Option<Seq<char>>
    decreases ls.len(),
{
    if ls.len() == 0 {
        None
    } else if "n/"@.is_prefix_of(ls[0]) && !contains_seq(ls[0], "(deleted)"@) {
        Some(ls[0].skip(1))
    } else {
        cwd_from_lines(ls.drop_first())
    }
}

/// The working directory in `lsof -p <pid> -Fn` output: the first name
/// field that is a path and not deleted.
pub fn lsof_cwd(output: &str) -> (r: Option<String>)
    ensures
        r matches Some(d) ==> cwd_from_lines(text_lines(output@)) == Some(d@),
        r is None ==> cwd_from_lines(text_lines(output@)) is None,
{
    let ls = lines_of(&chars_of(output));
    let prefix = chars_of("n/");
    proof {
        reveal_strlit("n/");
    }
    let deleted = chars_of("(deleted)");
    let ghost all = views(ls@);
    let mut i: usize = 0;
    assert(all.skip(0) =~= all);
    while i < ls.len()
        invariant
            i <= ls.len(),
            all == views(ls@),
            all == text_lines(output@),
            prefix@ == "n/"@,
            prefix@.len() == 2,
            deleted@ == "(deleted)"@,
            cwd_from_lines(all) == cwd_from_lines(all.skip(i as int)),
        decreases ls.len() - i,
    {
        assert(all.skip(i as int).drop_first() =~= all.skip(i + 1));
        assert(all.skip(i as int)[0] == ls@[i as int]@);
        if starts_with(&ls[i], &prefix) && !contains(&ls[i], &deleted) {
            let path = slice(&ls[i], 1, ls[i].len());
            assert(path@ =~= ls@[i as int]@.skip(1));
            return Some(string_of(&path));
        }
        i += 1;
    }
    None
}

/// The (pid, working directory) pairs of `lsof -d cwd -Fpn` output lines:
/// a `p` line names the current pid (none when it is not a number), and an
/// `n` line gives the directory of the current pid, if there is one.
pub open spec fn lsof_cwd_pairs(ls: Seq<Seq<char>>, cur: Option<i32>) -> Seq<(i32, Seq<char>)>
    decreases ls.len(),
{
    if ls.len() == 0 {
        Seq::empty()
    } else {
        let l = ls[0];
        if l.len() > 0 && l[0] == 'p' {
            lsof_cwd_pairs(ls.drop_first(), parse_i32_spec(l.skip(1)))
        } else if l.len() > 0 && l[0] == 'n' && cur is Some {
            seq![(cur->0, l.skip(1))] + lsof_cwd_pairs(ls.drop_first(), cur)
        } else {
            lsof_cwd_pairs(ls.drop_first(), cur)
        }
    }
}

/// The working directory of every process listed by one bulk
/// `lsof -d cwd -Fpn` call, in order.
pub fn parse_lsof_cwds(output: &str) -> (r: Vec<(i32, String)>)
    ensures
        r@.map_values(|e: (i32, String)| (e.0, e.1@)) == lsof_cwd_pairs(text_lines(output@), None),
{
    let ls = lines_of(&chars_of(output));
    let ghost all = views(ls@);
    let mut r: Vec<(i32, String)> = Vec::new();
    let mut cur: Option<i32> = None;
    let mut i: usize = 0;
    assert(all.skip(0) =~= all);
    while i < ls.len()
        invariant
            i <= ls.len(),
            all == views(ls@),
            all == text_lines(output@),
            r@.map_values(|e: (i32, String)| (e.0, e.1@)) + lsof_cwd_pairs(all.skip(i as int), cur)
                == lsof_cwd_pairs(all, None),
        decreases ls.len() - i,
    {
        let ghost rest = all.skip(i as int);
        assert(rest[0] == ls@[i as int]@);
        assert(rest.drop_first() =~= all.skip(i + 1));
        let line = &ls[i];
        let n = line.len();
        if n > 0 && line[0] == 'p' {
            let tail = slice(line, 1, n);
            assert(tail@ =~= line@.skip(1));
            cur = parse_i32(&tail);
        } else if n > 0 && line[0] == 'n' && cur.is_some() {
            let pid = match cur {
                Some(v) => v,
                None => 0,
            };
            let tail = slice(line, 1, n);
            assert(tail@ =~= line@.skip(1));
            let ghost before = r@.map_values(|e: (i32, String)| (e.0, e.1@));
            r.push((pid, string_of(&tail)));
            assert(r@.map_values(|e: (i32, String)| (e.0, e.1@)) =~= before.push((pid, tail@)));
            assert(before.push((pid, tail@)) + lsof_cwd_pairs(all.skip(i + 1), cur) =~= before + (
            seq![(pid, tail@)] + lsof_cwd_pairs(all.skip(i + 1), cur)));
        }
        i += 1;
    }
    assert(all.skip(i as int) =~= Seq::<Seq<char>>::empty());
    assert(r@.map_values(|e: (i32, String)| (e.0, e.1@)) + Seq::<(i32, Seq<char>)>::empty()
        =~= r@.map_values(|e: (i32, String)| (e.0, e.1@)));
    r
}

/// The directory found for `pid`: the last one listed for it.
pub open spec fn cwd_lookup(found: Seq<(i32, Seq<char>)>, pid: i32) -> Option<Seq<char>>
    decreases found.len(),
{
    if found.len() == 0 {
        None
    } else if found.last().0 == pid {
        Some(found.last().1)
    } else {
        cwd_lookup(found.drop_last(), pid)
    }
}

/// The working directory of `p` once filled in from `found`: an empty one
/// becomes the directory found for its pid, if any; a known one is kept.
pub open spec fn filled_cwd(p: ProcessMemory, found: Seq<(i32, Seq<char>)>) -> Seq<char> {
    if p.cwd@.len() == 0 {
        match cwd_lookup(found, p.pid) {
            Some(d) => d,
            None => p.cwd@,
        }
    } else {
        p.cwd@
    }
}

fn find_cwd(found: &Vec<(i32, String)>, pid: i32) -> (r: Option<String>)
    ensures
        match r {
            Some(d) => cwd_lookup(found@.map_values(|e: (i32, String)| (e.0, e.1@)), pid) == Some(d@),
            None => cwd_lookup(found@.map_values(|e: (i32, String)| (e.0, e.1@)), pid) is None,
        },
{
    let ghost m = found@.map_values(|e: (i32, String)| (e.0, e.1@));
    let mut i = found.len();
    assert(m.take(i as int) =~= m);
    while i > 0
        invariant
            i <= found.len(),
            m == found@.map_values(|e: (i32, String)| (e.0, e.1@)),
            cwd_lookup(m, pid) == cwd_lookup(m.take(i as int), pid),
        decreases i,
    {
        assert(m.take(i as int).drop_last() =~= m.take(i - 1));
        assert(m.take(i as int).last() == (found@[i - 1].0, found@[i - 1].1@));
        if found[i - 1].0 == pid {
            return Some(found[i - 1].1.clone());
        }
        i -= 1;
    }
    None
}

/// Fills in the empty working directories from the directories found for
/// the pids; every other field, and every known directory, stays.
pub fn backfill_cwds(processes: &mut Vec<ProcessMemory>, found: &Vec<(i32, String)>)
    ensures
        final(processes)@.len() == old(processes)@.len(),
        forall|j: int|
            0 <= j < old(processes)@.len() ==> {
                let p = old(processes)@[j];
                let q = #[trigger] final(processes)@[j];
                &&& q == ProcessMemory { cwd: q.cwd, ..p }
                &&& q.cwd@ == filled_cwd(p, found@.map_values(|e: (i32, String)| (e.0, e.1@)))
            },
{
    let ghost orig = processes@;
    let ghost m = found@.map_values(|e: (i32, String)| (e.0, e.1@));
    let mut i: usize = 0;
    while i < processes.len()
        invariant
            i <= processes.len(),
            processes@.len() == orig.len(),
            m == found@.map_values(|e: (i32, String)| (e.0, e.1@)),
            forall|j: int|
                0 <= j < i ==> {
                    let p = orig[j];
                    let q = #[trigger] processes@[j];
                    &&& q == ProcessMemory { cwd: q.cwd, ..p }
                    &&& q.cwd@ == filled_cwd(p, m)
                },
            forall|j: int| i <= j < orig.len() ==> processes@[j] == orig[j],
        decreases processes.len() - i,
    {
        if processes[i].cwd.as_str().is_empty() {
            match find_cwd(found, processes[i].pid) {
                Some(d) => {
                    let mut p = processes[i].duplicate();
                    p.cwd = d;
                    processes.set(i, p);
                },
                None => {},
            }
        }
        i += 1;
    }
}

} // verus!
