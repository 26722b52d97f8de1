//! Per-process and system-wide memory figures, their formatting, and the
//! parsers for the output of `vm_stat` and `sysctl`.
use vstd::prelude::*;
use crate::text::{
    chars_of, decimal, parse_u64, parse_u64_spec, push_decimal, remove_all, remove_char,
    split_lines, split_newlines, split_words, strip_leading_copies, strip_leading_seq,
    strip_trailing, strip_trailing_chars, string_of, trim, trim_chars, views, words, find,
    find_seq, slice,
};

verus! {

// ─── Process memory ────────────────────────────────────────────────────────

/// Memory of one process. `rss` is resident memory, `swap` the bytes swapped
/// to disk; `cwd` is the working directory used to find the process's project.
#[derive(Debug, Clone)]
pub struct ProcessMemory {
    pub pid: i32,
    pub name: String,
    pub cmdline: String,
    pub cwd: String,
    pub rss: u64,
    pub swap: u64,
    pub threads: usize,
}

/// `a + b`, capped at `u64::MAX`.
pub open spec fn sat_add(a: u64, b: u64) -> u64 {
    if a + b > u64::MAX {
        u64::MAX
    } else {
        (a + b) as u64
    }
}

/// `a - b`, floored at zero.
pub open spec fn sat_sub(a: u64, b: u64) -> u64 {
    if a < b {
        0
    } else {
        (a - b) as u64
    }
}

impl ProcessMemory {
    /// What killing the process would free: resident plus swapped bytes.
    pub open spec fn spec_total(&self) -> u64 {
        sat_add(self.rss, self.swap)
    }

    /// Resident plus swapped bytes, saturating at `u64::MAX`.
    pub fn total(&self) -> (r: u64)
        ensures
            r == self.spec_total(),
    {
        self.rss.saturating_add(self.swap)
    }

    /// A process with no command line, no working directory, no swap and one thread.
    pub fn new(pid: i32, name: String, rss: u64) -> (r: Self)
        ensures
            r.pid == pid,
            r.name == name,
            r.cmdline@ == Seq::<char>::empty(),
            r.cwd@ == Seq::<char>::empty(),
            r.rss == rss,
            r.swap == 0,
            r.threads == 1,
    {
        ProcessMemory { pid, name, cmdline: String::new(), cwd: String::new(), rss, swap: 0, threads: 1 }
    }

    /// An equal copy.
    pub fn duplicate(&self) -> (r: Self)
        ensures
            r == *self,
    {
        ProcessMemory {
            pid: self.pid,
            name: self.name.clone(),
            cmdline: self.cmdline.clone(),
            cwd: self.cwd.clone(),
            rss: self.rss,
            swap: self.swap,
            threads: self.threads,
        }
    }
}

// ─── Formatting ────────────────────────────────────────────────────────────

pub open spec fn kib() -> nat {
    1024
}

pub open spec fn mib() -> nat {
    1024 * 1024
}

pub open spec fn gib() -> nat {
    1024 * 1024 * 1024
}

/// Spacing of the `f64` values near `b`: 1 below 2^53, doubling with each binade above.
pub open spec fn f64_spacing(b: nat) -> nat
    decreases b,
{
    if b < 0x20_0000_0000_0000 {
        1
    } else {
        2 * f64_spacing(b / 2)
    }
}

/// `n / d` rounded to the nearest integer, ties to even.
pub open spec fn round_half_even(n: nat, d: nat) -> nat {
    let q = n / d;
    let r = n % d;
    if 2 * r > d || (2 * r == d && q % 2 == 1) {
        q + 1
    } else {
        q
    }
}

/// The value of `b as f64`: `b` rounded to the nearest `f64`, ties to even.
pub open spec fn nearest_f64(b: nat) -> nat {
    round_half_even(b, f64_spacing(b)) * f64_spacing(b)
}

/// `x / unit` with one decimal, rounded half to even, then the unit letter.
pub open spec fn one_decimal(x: nat, unit: nat, letter: char) -> Seq<char> {
    let t = round_half_even(10 * x, unit);
    decimal(t / 10) + seq!['.'] + decimal(t % 10) + seq![letter]
}

/// The human-readable size: `1.5G`, `200.0M`, `4.0K` or `512B`, in powers of 1024.
pub open spec fn size_text(b: u64) -> Seq<char> {
    if b >= gib() {
        one_decimal(nearest_f64(b as nat), gib(), 'G')
    } else if b >= mib() {
        one_decimal(b as nat, mib(), 'M')
    } else if b >= kib() {
        one_decimal(b as nat, kib(), 'K')
    } else {
        decimal(b as nat) + seq!['B']
    }
}

proof fn lemma_spacing_step(b: nat, p: nat)
    requires
        p > 0,
        b / p >= 0x20_0000_0000_0000,
    ensures
        f64_spacing(b / p) == 2 * f64_spacing(b / (2 * p)),
{
    assert(b / (2 * p) == (b / p) / 2) by {
        vstd::arithmetic::div_mod::lemma_div_denominator(b as int, p as int, 2);
    }
}

fn one_decimal_text(x: u128, unit: u128, letter: char) -> (r: Vec<char>)
    requires
        unit > 0,
        x <= 0x4_0000_0000_0000_0000,
        unit >= 1024,
        unit <= 0x4000_0000,
    ensures
        r@ == one_decimal(x as nat, unit as nat, letter),
{
    let n: u128 = 10 * x;
    let q = n / unit;
    let rem = n % unit;
    let t: u128 = if 2 * rem > unit || (2 * rem == unit && q % 2 == 1) {
        q + 1
    } else {
        q
    };
    assert(t == round_half_even(10 * x as nat, unit as nat));
    assert(q <= n / 1024) by {
        vstd::arithmetic::div_mod::lemma_div_is_ordered_by_denominator(n as int, 1024, unit as int);
    }
    let mut out: Vec<char> = Vec::new();
    push_decimal(&mut out, (t / 10) as u64);
    out.push('.');
    push_decimal(&mut out, (t % 10) as u64);
    out.push(letter);
    assert(out@ =~= one_decimal(x as nat, unit as nat, letter));
    out
}

/// Human-readable size in powers of 1024 with one decimal (`1.5G`), or plain bytes below 1K.
pub fn format_size(bytes: u64) -> (r: String)
    ensures
        r@ == size_text(bytes),
{
    let g: u64 = 1024 * 1024 * 1024;
    let m: u64 = 1024 * 1024;
    let k: u64 = 1024;
    let v = if bytes >= g {
        let mut p: u64 = 1;
        while bytes / p >= 0x20_0000_0000_0000
            invariant
                p > 0,
                p <= 0x1000,
                f64_spacing(bytes as nat) == p * f64_spacing((bytes / p) as nat),
            decreases bytes / p,
        {
            proof {
                let bn = bytes as nat;
                let pn = p as nat;
                lemma_spacing_step(bn, pn);
                assert(pn * 0x20_0000_0000_0000 <= bn) by (nonlinear_arith)
                    requires
                        bn / pn >= 0x20_0000_0000_0000,
                        pn > 0,
                ;
                assert(bn / (2 * pn) < bn / pn) by {
                    vstd::arithmetic::div_mod::lemma_div_denominator(bn as int, pn as int, 2);
                }
                assert(pn * (2 * f64_spacing(bn / (2 * pn))) == (2 * pn) * f64_spacing(
                    bn / (2 * pn),
                )) by (nonlinear_arith);
            }
            p = p * 2;
        }
        assert(f64_spacing((bytes / p) as nat) == 1);
        assert(f64_spacing(bytes as nat) == p) by (nonlinear_arith)
            requires
                f64_spacing(bytes as nat) == p * f64_spacing((bytes / p) as nat),
                f64_spacing((bytes / p) as nat) == 1,
        ;
        let q = bytes / p;
        let rem = bytes % p;
        proof {
            assert(q * p <= bytes) by (nonlinear_arith)
                requires
                    q == bytes / p,
                    p > 0,
            ;
            assert((q + 1) * p <= 0x20_0000_0000_0000 * 0x1000) by (nonlinear_arith)
                requires
                    q < 0x20_0000_0000_0000,
                    p <= 0x1000,
            ;
        }
        let rounded: u128 = if 2 * (rem as u128) > p as u128 || (2 * (rem as u128) == p as u128 && q
            % 2 == 1) {
            (q as u128 + 1) * (p as u128)
        } else {
            (q as u128) * (p as u128)
        };
        assert(rounded == nearest_f64(bytes as nat));
        one_decimal_text(rounded, g as u128, 'G')
    } else if bytes >= m {
        one_decimal_text(bytes as u128, m as u128, 'M')
    } else if bytes >= k {
        one_decimal_text(bytes as u128, k as u128, 'K')
    } else {
        let mut out: Vec<char> = Vec::new();
        push_decimal(&mut out, bytes);
        out.push('B');
        assert(out@ =~= decimal(bytes as nat) + seq!['B']);
        out
    };
    string_of(&v)
}

// ─── System memory ─────────────────────────────────────────────────────────

/// System-wide memory in bytes, from `sysctl` and `vm_stat`.
pub struct SystemMemory {
    pub total_bytes: u64,
    pub used_bytes: u64,
    pub free_bytes: u64,
    pub swap_total: u64,
    pub swap_used: u64,
    pub compressed: u64,
    pub wired: u64,
    pub app_memory: u64,
    pub cache: u64,
}

/// Page counts read from `vm_stat`.
pub struct VmStats {
    pub free_count: u64,
    pub active_count: u64,
    pub wire_count: u64,
    pub compressor_page_count: u64,
    pub purgeable_count: u64,
    pub speculative_count: u64,
    pub file_backed_count: u64,
}

/// Swap size and use in bytes, from `sysctl vm.swapusage`.
pub struct SwapInfo {
    pub total: u64,
    pub used: u64,
}

/// The count that a `vm_stat` line gives for `prefix`: the line starts with it,
/// and what follows, trimmed, without a final `.` and without `,`, is a number.
pub open spec fn vm_stat_value(line: Seq<char>, prefix: Seq<char>) -> Option<u64> {
    if prefix.is_prefix_of(line) {
        parse_u64_spec(
            remove_all(strip_trailing(trim(strip_leading_seq(line, prefix)), '.'), ','),
        )
    } else {
        None
    }
}

/// The count for `prefix` in `vm_stat` output: the value of the last line that
/// gives one, each line trimmed first; 0 when none does.
pub open spec fn vm_stat_field(lines: Seq<Seq<char>>, prefix: Seq<char>) -> u64
    decreases lines.len(),
{
    if lines.len() == 0 {
        0
    } else {
        match vm_stat_value(trim(lines.last()), prefix) {
            Some(v) => v,
            None => vm_stat_field(lines.drop_last(), prefix),
        }
    }
}

/// Stores in `out` the count that `line` gives for `prefix`, if it gives one.
pub fn parse_vm_stat(line: &str, prefix: &str, out: &mut u64)
    ensures
        *final(out) == match vm_stat_value(line@, prefix@) {
            Some(v) => v,
            None => *old(out),
        },
{
    let l = chars_of(line);
    let p = chars_of(prefix);
    parse_vm_stat_chars(&l, &p, out);
}

fn parse_vm_stat_chars(l: &Vec<char>, p: &Vec<char>, out: &mut u64)
    ensures
        *final(out) == match vm_stat_value(l@, p@) {
            Some(v) => v,
            None => *old(out),
        },
{
    if crate::text::starts_with(l, p) {
        let rest = strip_leading_copies(l, p);
        let t = trim_chars(&rest);
        let t = strip_trailing_chars(&t, '.');
        let t = remove_char(&t, ',');
        if let Some(v) = parse_u64(&t) {
            *out = v;
        }
    }
}

/// The page counts in the output of `vm_stat`.
pub fn parse_vm_stats(text: &str) -> (r: VmStats)
    ensures
        r.free_count == vm_stat_field(split_lines(text@), "Pages free:"@),
        r.active_count == vm_stat_field(split_lines(text@), "Pages active:"@),
        r.wire_count == vm_stat_field(split_lines(text@), "Pages wired down:"@),
        r.speculative_count == vm_stat_field(split_lines(text@), "Pages speculative:"@),
        r.compressor_page_count == vm_stat_field(
            split_lines(text@),
            "Pages occupied by compressor:"@,
        ),
        r.purgeable_count == vm_stat_field(split_lines(text@), "Pages purgeable:"@),
        r.file_backed_count == vm_stat_field(split_lines(text@), "File-backed pages:"@),
{
    let mut stats = VmStats {
        free_count: 0,
        active_count: 0,
        wire_count: 0,
        compressor_page_count: 0,
        purgeable_count: 0,
        speculative_count: 0,
        file_backed_count: 0,
    };
    let p_free = chars_of("Pages free:");
    let p_active = chars_of("Pages active:");
    let p_wired = chars_of("Pages wired down:");
    let p_spec = chars_of("Pages speculative:");
    let p_comp = chars_of("Pages occupied by compressor:");
    let p_purge = chars_of("Pages purgeable:");
    let p_file = chars_of("File-backed pages:");
    let lines = split_newlines(&chars_of(text));
    let ghost ls = views(lines@);
    let mut i: usize = 0;
    while i < lines.len()
        invariant
            i <= lines.len(),
            ls == views(lines@),
            ls == split_lines(text@),
            p_free@ == "Pages free:"@,
            p_active@ == "Pages active:"@,
            p_wired@ == "Pages wired down:"@,
            p_spec@ == "Pages speculative:"@,
            p_comp@ == "Pages occupied by compressor:"@,
            p_purge@ == "Pages purgeable:"@,
            p_file@ == "File-backed pages:"@,
            stats.free_count == vm_stat_field(ls.take(i as int), p_free@),
            stats.active_count == vm_stat_field(ls.take(i as int), p_active@),
            stats.wire_count == vm_stat_field(ls.take(i as int), p_wired@),
            stats.speculative_count == vm_stat_field(ls.take(i as int), p_spec@),
            stats.compressor_page_count == vm_stat_field(ls.take(i as int), p_comp@),
            stats.purgeable_count == vm_stat_field(ls.take(i as int), p_purge@),
            stats.file_backed_count == vm_stat_field(ls.take(i as int), p_file@),
        decreases lines.len() - i,
    {
        assert(ls.take(i + 1).drop_last() =~= ls.take(i as int));
        assert(ls.take(i + 1).last() == lines@[i as int]@);
        let line = trim_chars(&lines[i]);
        parse_vm_stat_chars(&line, &p_free, &mut stats.free_count);
        parse_vm_stat_chars(&line, &p_active, &mut stats.active_count);
        parse_vm_stat_chars(&line, &p_wired, &mut stats.wire_count);
        parse_vm_stat_chars(&line, &p_spec, &mut stats.speculative_count);
        parse_vm_stat_chars(&line, &p_comp, &mut stats.compressor_page_count);
        parse_vm_stat_chars(&line, &p_purge, &mut stats.purgeable_count);
        parse_vm_stat_chars(&line, &p_file, &mut stats.file_backed_count);
        i += 1;
    }
    assert(ls.take(lines.len() as int) =~= ls);
    stats
}

/// The first word after the first occurrence of `prefix` in `text`, if any.
pub open spec fn swap_field_word(text: Seq<char>, prefix: Seq<char>) -> Option<Seq<char>> {
    match find_seq(text, prefix) {
        Some(i) => {
            let ws = words(text.skip(i + prefix.len()));
            if ws.len() > 0 {
                Some(ws[0])
            } else {
                None
            }
        },
        None => None,
    }
}

/// In the output of `sysctl vm.swapusage`, the size written after `prefix`
/// (for example `"2048.00M"` after `"total = "`), or `None` when there is none.
pub fn extract_swap_field(text: &str, prefix: &str) -> (r: Option<String>)
    ensures
        r matches Some(w) ==> swap_field_word(text@, prefix@) == Some(w@),
        r is None ==> swap_field_word(text@, prefix@) is None,
{
    let t = chars_of(text);
    let p = chars_of(prefix);
    match find(&t, &p) {
        Some(i) => {
            proof {
                crate::text::lemma_find_from_contains(t@, p@, 0);
                assert(crate::text::occurs_at(t@, p@, i as int));
            }
            let tl = t.len();
            assert(i + p@.len() <= tl);
            let rest = slice(&t, i + p.len(), tl);
            assert(rest@ =~= t@.skip(i + p.len()));
            let ws = split_words(&rest);
            if ws.len() > 0 {
                Some(string_of(&ws[0]))
            } else {
                None
            }
        },
        None => None,
    }
}

/// The number that a `sysctl -n` query printed, or `default` when the query
/// failed (`None`) or printed something else.
pub fn parse_sysctl_value(output: Option<&str>, default: u64) -> (r: u64)
    ensures
        r == match output {
            Some(o) => match parse_u64_spec(trim(o@)) {
                Some(v) => v,
                None => default,
            },
            None => default,
        },
{
    match output {
        Some(o) => {
            let t = trim_chars(&chars_of(o));
            match parse_u64(&t) {
                Some(v) => v,
                None => default,
            }
        },
        None => default,
    }
}

/// Whether every page count times the page size fits in 64 bits.
pub open spec fn vm_stats_fit(vm: &VmStats, page_size: u64) -> bool {
    &&& vm.free_count * page_size <= u64::MAX
    &&& vm.active_count * page_size <= u64::MAX
    &&& vm.wire_count * page_size <= u64::MAX
    &&& vm.compressor_page_count * page_size <= u64::MAX
    &&& vm.purgeable_count * page_size <= u64::MAX
    &&& vm.speculative_count * page_size <= u64::MAX
    &&& vm.file_backed_count * page_size <= u64::MAX
}

/// The system memory breakdown: every page count times the page size;
/// app memory is active plus speculative minus purgeable, cache the
/// file-backed pages, and used the total minus free, cache and purgeable
/// (each subtraction floored at zero, the addition capped).
pub fn get_system_memory(total: u64, page_size: u64, vm: &VmStats, swap: &SwapInfo) -> (r:
    SystemMemory)
    requires
        vm_stats_fit(vm, page_size),
    ensures
        r.total_bytes == total,
        r.free_bytes == vm.free_count * page_size,
        r.wired == vm.wire_count * page_size,
        r.compressed == vm.compressor_page_count * page_size,
        r.cache == vm.file_backed_count * page_size,
        r.app_memory == sat_sub(
            sat_add(
                (vm.active_count * page_size) as u64,
                (vm.speculative_count * page_size) as u64,
            ),
            (vm.purgeable_count * page_size) as u64,
        ),
        r.used_bytes == sat_sub(
            sat_sub(
                sat_sub(total, (vm.free_count * page_size) as u64),
                (vm.file_backed_count * page_size) as u64,
            ),
            (vm.purgeable_count * page_size) as u64,
        ),
        r.swap_total == swap.total,
        r.swap_used == swap.used,
{
    let free = vm.free_count * page_size;
    let active = vm.active_count * page_size;
    let speculative = vm.speculative_count * page_size;
    let wired = vm.wire_count * page_size;
    let compressed = vm.compressor_page_count * page_size;
    let purgeable = vm.purgeable_count * page_size;
    let app_memory = active.saturating_add(speculative).saturating_sub(purgeable);
    let cache = vm.file_backed_count * page_size;
    let used = total.saturating_sub(free).saturating_sub(cache).saturating_sub(purgeable);
    SystemMemory {
        total_bytes: total,
        used_bytes: used,
        free_bytes: free,
        swap_total: swap.total,
        swap_used: swap.used,
        compressed,
        wired,
        app_memory,
        cache,
    }
}

} // verus!
