//! Character-level text handling shared by the parsers and the grouping rules.
//!
//! Strings are modelled by their view, a `Seq<char>`. The executable helpers
//! work on `Vec<char>` and are proved against the spec functions below.
use vstd::prelude::*;

verus! {

// ─── Spec vocabulary ───────────────────────────────────────────────────────

/// Unicode `White_Space`, the property that `char::is_whitespace` tests.
pub open spec fn is_ws(c: char) -> bool {
    let u = c as u32;
    ||| 0x09 <= u && u <= 0x0D
    ||| u == 0x20
    ||| u == 0x85
    ||| u == 0xA0
    ||| u == 0x1680
    ||| 0x2000 <= u && u <= 0x200A
    ||| u == 0x2028
    ||| u == 0x2029
    ||| u == 0x202F
    ||| u == 0x205F
    ||| u == 0x3000
}

/// `p` occurs in `s` starting at index `i`.
pub open spec fn occurs_at(s: Seq<char>, p: Seq<char>, i: int) -> bool {
    0 <= i && i + p.len() <= s.len() && s.subrange(i, i + p.len()) == p
}

/// `p` occurs somewhere in `s` (`str::contains`).
pub open spec fn contains_seq(s: Seq<char>, p: Seq<char>) -> bool {
    exists|i: int| occurs_at(s, p, i)
}

/// The first index at or after `i` where `p` occurs in `s`.
pub open spec fn find_from(s: Seq<char>, p: Seq<char>, i: int) -> Option<int>
    decreases s.len() + 1 - i,
{
    if i < 0 || i + p.len() > s.len() {
        None
    } else if occurs_at(s, p, i) {
        Some(i)
    } else {
        find_from(s, p, i + 1)
    }
}

/// The first index where `p` occurs in `s` (`str::find`).
pub open spec fn find_seq(s: Seq<char>, p: Seq<char>) -> Option<int> {
    find_from(s, p, 0)
}

/// Leading whitespace removed (`str::trim_start`).
pub open spec fn trim_start(s: Seq<char>) -> Seq<char>
    decreases s.len(),
{
    if s.len() > 0 && is_ws(s[0]) {
        trim_start(s.drop_first())
    } else {
        s
    }
}

/// Trailing whitespace removed (`str::trim_end`).
pub open spec fn trim_end(s: Seq<char>) -> Seq<char>
    decreases s.len(),
{
    if s.len() > 0 && is_ws(s.last()) {
        trim_end(s.drop_last())
    } else {
        s
    }
}

/// Whitespace removed at both ends (`str::trim`).
pub open spec fn trim(s: Seq<char>) -> Seq<char> {
    trim_end(trim_start(s))
}

/// Every leading `c` removed (`str::trim_start_matches` with a char).
pub open spec fn strip_leading(s: Seq<char>, c: char) -> Seq<char>
    decreases s.len(),
{
    if s.len() > 0 && s[0] == c {
        strip_leading(s.drop_first(), c)
    } else {
        s
    }
}

/// Every trailing `c` removed (`str::trim_end_matches` with a char).
pub open spec fn strip_trailing(s: Seq<char>, c: char) -> Seq<char>
    decreases s.len(),
{
    if s.len() > 0 && s.last() == c {
        strip_trailing(s.drop_last(), c)
    } else {
        s
    }
}

/// Every leading copy of a non-empty `p` removed (`str::trim_start_matches` with a `&str`).
pub open spec fn strip_leading_seq(s: Seq<char>, p: Seq<char>) -> Seq<char>
    decreases s.len(),
{
    if p.len() > 0 && p.is_prefix_of(s) {
        strip_leading_seq(s.skip(p.len() as int), p)
    } else {
        s
    }
}

/// Every `c` removed (`str::replace` of a one-char pattern by `""`).
pub open spec fn remove_all(s: Seq<char>, c: char) -> Seq<char>
    decreases s.len(),
{
    if s.len() == 0 {
        s
    } else if s.last() == c {
        remove_all(s.drop_last(), c)
    } else {
        remove_all(s.drop_last(), c).push(s.last())
    }
}

/// Length of the longest prefix of `s` without whitespace.
pub open spec fn word_len(s: Seq<char>) -> nat
    decreases s.len(),
{
    if s.len() == 0 || is_ws(s[0]) {
        0
    } else {
        1 + word_len(s.drop_first())
    }
}

pub proof fn lemma_word_len_bound(s: Seq<char>)
    ensures
        word_len(s) <= s.len(),
        s.len() > 0 && !is_ws(s[0]) ==> word_len(s) > 0,
    decreases s.len(),
{
    if s.len() > 0 && !is_ws(s[0]) {
        lemma_word_len_bound(s.drop_first());
    }
}

/// The whitespace-separated words of `s` (`str::split_whitespace`).
pub open spec fn words(s: Seq<char>) -> Seq<Seq<char>>
    decreases s.len(),
{
    if s.len() == 0 {
        Seq::empty()
    } else if is_ws(s[0]) {
        words(s.drop_first())
    } else {
        proof {
            lemma_word_len_bound(s);
        }
        seq![s.take(word_len(s) as int)] + words(s.skip(word_len(s) as int))
    }
}

/// The pieces of `s` between `'\n'` characters, the last one included even when empty.
pub open spec fn split_lines(s: Seq<char>) -> Seq<Seq<char>>
    decreases s.len(),
{
    if s.len() == 0 {
        seq![Seq::empty()]
    } else {
        let rest = split_lines(s.drop_last());
        if s.last() == '\n' {
            rest.push(Seq::empty())
        } else {
            rest.update(rest.len() - 1, rest.last().push(s.last()))
        }
    }
}

/// An ASCII decimal digit.
pub open spec fn is_digit(c: char) -> bool {
    '0' <= c && c <= '9'
}

pub open spec fn all_digits(s: Seq<char>) -> bool {
    forall|i: int| 0 <= i < s.len() ==> is_digit(#[trigger] s[i])
}

pub open spec fn digit_value(c: char) -> nat {
    (c as u32 - '0' as u32) as nat
}

/// The number that the decimal digits `s` spell.
pub open spec fn digits_value(s: Seq<char>) -> nat
    decreases s.len(),
{
    if s.len() == 0 {
        0
    } else {
        digits_value(s.drop_last()) * 10 + digit_value(s.last())
    }
}

/// What `u64::from_str` gives: an optional `+`, then at least one digit, within range.
pub open spec fn parse_u64_spec(s: Seq<char>) -> Option<u64> {
    let d = if s.len() > 0 && s[0] == '+' { s.drop_first() } else { s };
    if d.len() > 0 && all_digits(d) && digits_value(d) <= u64::MAX {
        Some(digits_value(d) as u64)
    } else {
        None
    }
}

/// What `i32::from_str` gives: an optional sign, then at least one digit, within range.
pub open spec fn parse_i32_spec(s: Seq<char>) -> Option<i32> {
    let neg = s.len() > 0 && s[0] == '-';
    let d = if s.len() > 0 && (s[0] == '+' || s[0] == '-') { s.drop_first() } else { s };
    if d.len() > 0 && all_digits(d) {
        if neg && digits_value(d) <= 0x8000_0000 {
            Some((0 - digits_value(d)) as i32)
        } else if !neg && digits_value(d) <= 0x7fff_ffff {
            Some(digits_value(d) as i32)
        } else {
            None
        }
    } else {
        None
    }
}

/// The character of a digit `0..=9`.
pub open spec fn digit_char(d: nat) -> char {
    ((d + '0' as u32) as u32) as char
}

/// Decimal spelling of `n`, without leading zeros (`format!("{}", n)`).
pub open spec fn decimal(n: nat) -> Seq<char>
    decreases n,
{
    if n < 10 {
        seq![digit_char(n)]
    } else {
        decimal(n / 10).push(digit_char(n % 10))
    }
}

/// Unicode lowercase mapping of a string, as `str::to_lowercase` computes it.
pub uninterp spec fn lowercase(s: Seq<char>) -> Seq<char>;

// ─── Trusted std calls ─────────────────────────────────────────────────────

/// `str::to_lowercase`: its result is named `lowercase` of the argument's
/// characters; nothing else about the Unicode case mapping is claimed.
#[verifier::external_body]
pub(crate) fn to_lowercase(s: &str) -> (r: String)
    ensures
        r@ == lowercase(s@),
{
    s.to_lowercase()
}

/// `String::push`: the character is appended at the end.
#[verifier::external_body]
fn push_char(s: &mut String, c: char)
    ensures
        final(s)@ == old(s)@.push(c),
{
    s.push(c)
}

// ─── Conversions ───────────────────────────────────────────────────────────

/// The characters of a string slice.
pub fn chars_of(s: &str) -> (r: Vec<char>)
    ensures
        r@ == s@,
{
    let mut r: Vec<char> = Vec::new();
    for c in it: s.chars()
        invariant
            it.seq() == s@,
            r@ == it.seq().take(it.index() as int),
    {
        r.push(c);
    }
    r
}

/// A string made of the given characters.
pub fn string_of(v: &Vec<char>) -> (r: String)
    ensures
        r@ == v@,
{
    let mut r = String::new();
    let mut i: usize = 0;
    while i < v.len()
        invariant
            i <= v.len(),
            r@ == v@.take(i as int),
        decreases v.len() - i,
    {
        push_char(&mut r, v[i]);
        assert(v@.take(i + 1) =~= v@.take(i as int).push(v@[i as int]));
        i += 1;
    }
    assert(v@.take(v.len() as int) =~= v@);
    r
}

/// The characters `v[i..j]`.
pub fn slice(v: &Vec<char>, i: usize, j: usize) -> (r: Vec<char>)
    requires
        i <= j <= v.len(),
    ensures
        r@ == v@.subrange(i as int, j as int),
{
    let mut r: Vec<char> = Vec::new();
    let mut k = i;
    while k < j
        invariant
            i <= k <= j <= v.len(),
            r@ == v@.subrange(i as int, k as int),
        decreases j - k,
    {
        r.push(v[k]);
        assert(v@.subrange(i as int, k + 1) =~= v@.subrange(i as int, k as int).push(v@[k as int]));
        k += 1;
    }
    r
}

/// `a` followed by `b`.
pub fn concat(a: &Vec<char>, b: &Vec<char>) -> (r: Vec<char>)
    ensures
        r@ == a@ + b@,
{
    let mut r = slice(a, 0, a.len());
    let mut k: usize = 0;
    assert(a@.subrange(0, a.len() as int) =~= a@);
    while k < b.len()
        invariant
            k <= b.len(),
            r@ == a@ + b@.take(k as int),
        decreases b.len() - k,
    {
        r.push(b[k]);
        assert(a@ + b@.take(k + 1) =~= (a@ + b@.take(k as int)).push(b@[k as int]));
        k += 1;
    }
    assert(b@.take(b.len() as int) =~= b@);
    r
}

// ─── Whitespace, trimming, stripping ───────────────────────────────────────

/// `char::is_whitespace`.
pub fn is_whitespace(c: char) -> (r: bool)
    ensures
        r == is_ws(c),
{
    let u = c as u32;
    (0x09 <= u && u <= 0x0D) || u == 0x20 || u == 0x85 || u == 0xA0 || u == 0x1680 || (0x2000
        <= u && u <= 0x200A) || u == 0x2028 || u == 0x2029 || u == 0x202F || u == 0x205F || u
        == 0x3000
}

/// `str::trim`.
pub fn trim_chars(v: &Vec<char>) -> (r: Vec<char>)
    ensures
        r@ == trim(v@),
{
    let mut i: usize = 0;
    assert(v@.skip(0) =~= v@);
    while i < v.len() && is_whitespace(v[i])
        invariant
            i <= v.len(),
            trim_start(v@) == trim_start(v@.skip(i as int)),
        decreases v.len() - i,
    {
        assert(v@.skip(i as int).drop_first() =~= v@.skip(i + 1));
        i += 1;
    }
    let mut j: usize = v.len();
    let ghost t = v@.skip(i as int);
    assert(trim_start(v@) == t);
    while j > i && is_whitespace(v[j - 1])
        invariant
            i <= j <= v.len(),
            t == v@.skip(i as int),
            trim_end(t) == trim_end(v@.subrange(i as int, j as int)),
        decreases j,
    {
        assert(v@.subrange(i as int, j as int).drop_last() =~= v@.subrange(i as int, j - 1));
        j -= 1;
    }
    assert(t =~= v@.subrange(i as int, v.len() as int));
    slice(v, i, j)
}

/// `str::trim_start_matches` with a single character.
pub fn strip_leading_chars(v: &Vec<char>, c: char) -> (r: Vec<char>)
    ensures
        r@ == strip_leading(v@, c),
{
    let mut i: usize = 0;
    assert(v@.skip(0) =~= v@);
    while i < v.len() && v[i] == c
        invariant
            i <= v.len(),
            strip_leading(v@, c) == strip_leading(v@.skip(i as int), c),
        decreases v.len() - i,
    {
        assert(v@.skip(i as int).drop_first() =~= v@.skip(i + 1));
        i += 1;
    }
    assert(v@.skip(i as int) =~= v@.subrange(i as int, v.len() as int));
    slice(v, i, v.len())
}

/// `str::trim_end_matches` with a single character.
pub fn strip_trailing_chars(v: &Vec<char>, c: char) -> (r: Vec<char>)
    ensures
        r@ == strip_trailing(v@, c),
{
    let mut j: usize = v.len();
    assert(v@.take(j as int) =~= v@);
    while j > 0 && v[j - 1] == c
        invariant
            j <= v.len(),
            strip_trailing(v@, c) == strip_trailing(v@.take(j as int), c),
        decreases j,
    {
        assert(v@.take(j as int).drop_last() =~= v@.take(j - 1));
        j -= 1;
    }
    assert(v@.take(j as int) =~= v@.subrange(0, j as int));
    slice(v, 0, j)
}

/// `str::trim_start_matches` with a string pattern.
pub fn strip_leading_copies(v: &Vec<char>, p: &Vec<char>) -> (r: Vec<char>)
    ensures
        r@ == strip_leading_seq(v@, p@),
{
    if p.len() == 0 {
        return slice_all(v);
    }
    let mut i: usize = 0;
    assert(v@.skip(0) =~= v@);
    while i <= v.len() && matches_at(v, p, i)
        invariant
            i <= v.len(),
            p.len() > 0,
            strip_leading_seq(v@, p@) == strip_leading_seq(v@.skip(i as int), p@),
        decreases v.len() - i,
    {
        proof {
            let w = v@.skip(i as int);
            assert(p@.is_prefix_of(w)) by {
                assert(w.subrange(0, p.len() as int) =~= v@.subrange(i as int, i + p.len()));
            }
            assert(w.skip(p.len() as int) =~= v@.skip(i + p.len()));
        }
        i += p.len();
    }
    proof {
        let w = v@.skip(i as int);
        if p@.is_prefix_of(w) {
            assert(v@.subrange(i as int, i + p.len()) =~= w.subrange(0, p.len() as int));
        }
    }
    assert(v@.skip(i as int) =~= v@.subrange(i as int, v.len() as int));
    slice(v, i, v.len())
}

/// A copy of all characters.
pub fn slice_all(v: &Vec<char>) -> (r: Vec<char>)
    ensures
        r@ == v@,
{
    let r = slice(v, 0, v.len());
    assert(v@.subrange(0, v.len() as int) =~= v@);
    r
}

/// `str::replace(c, "")`: every `c` removed.
pub fn remove_char(v: &Vec<char>, c: char) -> (r: Vec<char>)
    ensures
        r@ == remove_all(v@, c),
{
    let mut r: Vec<char> = Vec::new();
    let mut i: usize = 0;
    assert(v@.take(0) =~= Seq::<char>::empty());
    while i < v.len()
        invariant
            i <= v.len(),
            r@ == remove_all(v@.take(i as int), c),
        decreases v.len() - i,
    {
        assert(v@.take(i + 1).drop_last() =~= v@.take(i as int));
        if v[i] != c {
            r.push(v[i]);
        }
        i += 1;
    }
    assert(v@.take(v.len() as int) =~= v@);
    r
}

// ─── Splitting ─────────────────────────────────────────────────────────────

/// The views of a sequence of character vectors.
pub open spec fn views(s: Seq<Vec<char>>) -> Seq<Seq<char>> {
    s.map_values(|v: Vec<char>| v@)
}

proof fn lemma_word_len_exact(s: Seq<char>, n: int)
    requires
        0 <= n <= s.len(),
        forall|k: int| 0 <= k < n ==> !is_ws(#[trigger] s[k]),
        n == s.len() || is_ws(s[n]),
    ensures
        word_len(s) == n,
    decreases n,
{
    if n > 0 {
        lemma_word_len_exact(s.drop_first(), n - 1);
    }
}

/// `str::split_whitespace`, collected.
pub fn split_words(v: &Vec<char>) -> (r: Vec<Vec<char>>)
    ensures
        views(r@) == words(v@),
{
    let mut r: Vec<Vec<char>> = Vec::new();
    let mut i: usize = 0;
    assert(v@.skip(0) =~= v@);
    while i < v.len()
        invariant
            i <= v.len(),
            words(v@) == views(r@) + words(v@.skip(i as int)),
        decreases v.len() - i,
    {
        let ghost w = v@.skip(i as int);
        if is_whitespace(v[i]) {
            assert(w.drop_first() =~= v@.skip(i + 1));
            i += 1;
        } else {
            let mut j = i;
            while j < v.len() && !is_whitespace(v[j])
                invariant
                    i <= j <= v.len(),
                    forall|k: int| i <= k < j ==> !is_ws(#[trigger] v@[k]),
                decreases v.len() - j,
            {
                j += 1;
            }
            let word = slice(v, i, j);
            proof {
                lemma_word_len_exact(w, j - i);
                assert(w.take(j - i) =~= word@);
                assert(w.skip(j - i) =~= v@.skip(j as int));
            }
            let ghost before = views(r@);
            r.push(word);
            assert(views(r@) =~= before + seq![word@]);
            assert(words(v@) =~= views(r@) + words(v@.skip(j as int)));
            i = j;
        }
    }
    assert(words(v@.skip(i as int)) =~= Seq::<Seq<char>>::empty());
    assert(views(r@) + Seq::<Seq<char>>::empty() =~= views(r@));
    r
}

/// The pieces between `'\n'` characters (`str::split('\n')`), collected.
pub fn split_newlines(v: &Vec<char>) -> (r: Vec<Vec<char>>)
    ensures
        views(r@) == split_lines(v@),
{
    let mut r: Vec<Vec<char>> = Vec::new();
    let mut cur: Vec<char> = Vec::new();
    let mut i: usize = 0;
    assert(v@.take(0) =~= Seq::<char>::empty());
    while i < v.len()
        invariant
            i <= v.len(),
            split_lines(v@.take(i as int)) == views(r@).push(cur@),
        decreases v.len() - i,
    {
        assert(v@.take(i + 1).drop_last() =~= v@.take(i as int));
        if v[i] == '\n' {
            let ghost before = views(r@);
            r.push(cur);
            cur = Vec::new();
            assert(views(r@) =~= before.push(r@[r.len() - 1]@));
        } else {
            let ghost before = views(r@);
            cur.push(v[i]);
            assert(before.push(cur@) =~= before.push(old_cur_view(before, cur@)));
        }
        i += 1;
    }
    assert(v@.take(v.len() as int) =~= v@);
    let ghost before = views(r@);
    r.push(cur);
    assert(views(r@) =~= before.push(r@[r.len() - 1]@));
    r
}

spec fn old_cur_view(before: Seq<Seq<char>>, c: Seq<char>) -> Seq<char> {
    c
}

// ─── Numbers ───────────────────────────────────────────────────────────────

proof fn lemma_digits_prefix(s: Seq<char>, k: int)
    requires
        0 <= k <= s.len(),
    ensures
        digits_value(s.take(k)) <= digits_value(s),
    decreases s.len(),
{
    if k < s.len() {
        assert(s.drop_last().take(k) =~= s.take(k));
        lemma_digits_prefix(s.drop_last(), k);
    } else {
        assert(s.take(k) =~= s);
    }
}

/// Value of the digits `d`, or `None` when a non-digit occurs or the value exceeds `bound`.
fn digits_up_to(d: &Vec<char>, start: usize, bound: u64) -> (r: Option<u64>)
    requires
        start <= d.len(),
        bound >= 9,
    ensures
        r matches Some(x) ==> all_digits(d@.skip(start as int)) && x == digits_value(
            d@.skip(start as int),
        ) && x <= bound,
        r is None ==> !all_digits(d@.skip(start as int)) || digits_value(d@.skip(start as int))
            > bound,
{
    let ghost t = d@.skip(start as int);
    let mut acc: u64 = 0;
    let mut i = start;
    assert(t.take(0) =~= Seq::<char>::empty());
    while i < d.len()
        invariant
            start <= i <= d.len(),
            t == d@.skip(start as int),
            all_digits(t.take(i - start)),
            acc == digits_value(t.take(i - start)),
            acc <= bound,
            bound >= 9,
        decreases d.len() - i,
    {
        let c = d[i];
        assert(t[i - start] == c);
        assert(t.take(i - start + 1).drop_last() =~= t.take(i - start));
        if !('0' <= c && c <= '9') {
            return None;
        }
        let dv = (c as u32 - '0' as u32) as u64;
        if acc > (bound - dv) / 10 {
            proof {
                lemma_digits_prefix(t, i - start + 1);
                if all_digits(t) {
                    assert(digits_value(t.take(i - start + 1)) == acc * 10 + dv);
                }
            }
            return None;
        }
        acc = acc * 10 + dv;
        i += 1;
    }
    assert(t.take(i - start) =~= t);
    Some(acc)
}

/// `u64::from_str`, on characters.
pub fn parse_u64(s: &Vec<char>) -> (r: Option<u64>)
    ensures
        r == parse_u64_spec(s@),
{
    let start: usize = if s.len() > 0 && s[0] == '+' {
        1
    } else {
        0
    };
    assert(start == 1 ==> s@.skip(1) =~= s@.drop_first());
    assert(s@.skip(0) =~= s@);
    if start == s.len() {
        return None;
    }
    digits_up_to(s, start, u64::MAX)
}

/// `i32::from_str`, on characters.
pub fn parse_i32(s: &Vec<char>) -> (r: Option<i32>)
    ensures
        r == parse_i32_spec(s@),
{
    let neg = s.len() > 0 && s[0] == '-';
    let start: usize = if s.len() > 0 && (s[0] == '+' || s[0] == '-') {
        1
    } else {
        0
    };
    assert(start == 1 ==> s@.skip(1) =~= s@.drop_first());
    assert(s@.skip(0) =~= s@);
    if start == s.len() {
        return None;
    }
    let bound: u64 = if neg {
        0x8000_0000
    } else {
        0x7fff_ffff
    };
    match digits_up_to(s, start, bound) {
        Some(x) => {
            if neg {
                Some((0 - (x as i64)) as i32)
            } else {
                Some(x as i32)
            }
        },
        None => None,
    }
}

/// The character of a digit `d < 10`.
pub fn digit_to_char(d: u64) -> (c: char)
    requires
        d < 10,
    ensures
        c == digit_char(d as nat),
{
    ((d as u8) + 48u8) as char
}

/// Appends the decimal spelling of `n`.
pub fn push_decimal(out: &mut Vec<char>, n: u64)
    ensures
        final(out)@ == old(out)@ + decimal(n as nat),
    decreases n,
{
    if n >= 10 {
        push_decimal(out, n / 10);
    }
    out.push(digit_to_char(n % 10));
    assert(n < 10 ==> decimal(n as nat) == seq![digit_char(n as nat)]);
    assert(final(out)@ =~= old(out)@ + decimal(n as nat));
}

// ─── Comparisons and search ────────────────────────────────────────────────

/// Whether `p` occurs in `s` at index `i`.
pub fn matches_at(s: &Vec<char>, p: &Vec<char>, i: usize) -> (r: bool)
    ensures
        r == occurs_at(s@, p@, i as int),
{
    if i > s.len() || p.len() > s.len() - i {
        return false;
    }
    let mut k: usize = 0;
    while k < p.len()
        invariant
            i + p.len() <= s.len(),
            k <= p.len(),
            forall|m: int| 0 <= m < k ==> s@[i + m] == p@[m],
        decreases p.len() - k,
    {
        if s[i + k] != p[k] {
            assert(s@.subrange(i as int, i + p.len())[k as int] != p@[k as int]);
            return false;
        }
        k += 1;
    }
    assert(s@.subrange(i as int, i + p.len()) =~= p@);
    true
}

/// Equality of two character sequences.
pub fn same(a: &Vec<char>, b: &Vec<char>) -> (r: bool)
    ensures
        r == (a@ == b@),
{
    if a.len() != b.len() {
        return false;
    }
    let r = matches_at(a, b, 0);
    assert(r ==> a@ =~= a@.subrange(0, b.len() as int));
    assert(a@ == b@ ==> a@.subrange(0, b.len() as int) =~= a@);
    r
}

/// `str::starts_with`.
pub fn starts_with(s: &Vec<char>, p: &Vec<char>) -> (r: bool)
    ensures
        r == p@.is_prefix_of(s@),
{
    matches_at(s, p, 0)
}

/// `str::ends_with`.
pub fn ends_with(s: &Vec<char>, p: &Vec<char>) -> (r: bool)
    ensures
        r == p@.is_suffix_of(s@),
{
    if p.len() > s.len() {
        return false;
    }
    matches_at(s, p, s.len() - p.len())
}

/// `str::find`: the first index where `p` occurs.
pub fn find(s: &Vec<char>, p: &Vec<char>) -> (r: Option<usize>)
    ensures
        r matches Some(i) ==> find_seq(s@, p@) == Some(i as int),
        r is None ==> find_seq(s@, p@) is None,
{
    if p.len() > s.len() {
        return None;
    }
    let last = s.len() - p.len();
    let mut i: usize = 0;
    while i <= last
        invariant
            last == s.len() - p.len(),
            p.len() <= s.len(),
            i <= last + 1,
            find_seq(s@, p@) == find_from(s@, p@, i as int),
        decreases last + 1 - i,
    {
        if matches_at(s, p, i) {
            return Some(i);
        }
        if i == last {
            assert(find_from(s@, p@, i + 1) is None);
            return None;
        }
        i += 1;
    }
    None
}

/// `str::contains`.
pub fn contains(s: &Vec<char>, p: &Vec<char>) -> (r: bool)
    ensures
        r == contains_seq(s@, p@),
{
    let f = find(s, p);
    proof {
        lemma_find_from_contains(s@, p@, 0);
    }
    f.is_some()
}

/// `find_from(s, p, i)` finds an occurrence exactly when one exists at or after `i`.
pub proof fn lemma_find_from_contains(s: Seq<char>, p: Seq<char>, i: int)
    requires
        0 <= i,
    ensures
        find_from(s, p, i) matches Some(j) ==> occurs_at(s, p, j) && i <= j,
        find_from(s, p, i) is None <==> (forall|j: int| i <= j ==> !occurs_at(s, p, j)),
        i == 0 ==> (find_from(s, p, i) is Some <==> contains_seq(s, p)),
    decreases s.len() + 1 - i,
{
    if i + p.len() > s.len() {
    } else if occurs_at(s, p, i) {
    } else {
        lemma_find_from_contains(s, p, i + 1);
        assert forall|j: int| i <= j && occurs_at(s, p, j) implies j >= i + 1 by {}
    }
    if i == 0 {
        if find_from(s, p, i) is None {
            assert forall|j: int| !occurs_at(s, p, j) by {
                if j < 0 {}
            }
        } else {
            let j = find_from(s, p, i)->0;
            assert(occurs_at(s, p, j));
        }
    }
}

// ─── Ordering ──────────────────────────────────────────────────────────────

/// Lexicographic order of character sequences (the order of `String`).
pub open spec fn lex_le(a: Seq<char>, b: Seq<char>) -> bool
    decreases a.len(),
{
    if a.len() == 0 {
        true
    } else if b.len() == 0 {
        false
    } else if a[0] != b[0] {
        a[0] < b[0]
    } else {
        lex_le(a.drop_first(), b.drop_first())
    }
}

pub proof fn lemma_lex_total(a: Seq<char>, b: Seq<char>)
    ensures
        lex_le(a, b) || lex_le(b, a),
        lex_le(a, b) && lex_le(b, a) ==> a == b,
    decreases a.len(),
{
    if a.len() > 0 && b.len() > 0 && a[0] == b[0] {
        lemma_lex_total(a.drop_first(), b.drop_first());
        if a.drop_first() == b.drop_first() {
            assert(a =~= seq![a[0]] + a.drop_first());
            assert(b =~= seq![b[0]] + b.drop_first());
        }
    }
}

pub proof fn lemma_lex_trans(a: Seq<char>, b: Seq<char>, c: Seq<char>)
    requires
        lex_le(a, b),
        lex_le(b, c),
    ensures
        lex_le(a, c),
    decreases a.len(),
{
    if a.len() > 0 && b.len() > 0 && c.len() > 0 && a[0] == b[0] && b[0] == c[0] {
        lemma_lex_trans(a.drop_first(), b.drop_first(), c.drop_first());
    }
}

/// Whether `a` comes before or equals `b` in lexicographic order.
pub fn lex_le_chars(a: &Vec<char>, b: &Vec<char>) -> (r: bool)
    ensures
        r == lex_le(a@, b@),
{
    let mut i: usize = 0;
    assert(a@.skip(0) =~= a@);
    assert(b@.skip(0) =~= b@);
    while i < a.len() && i < b.len() && a[i] == b[i]
        invariant
            i <= a.len(),
            i <= b.len(),
            lex_le(a@, b@) == lex_le(a@.skip(i as int), b@.skip(i as int)),
        decreases a.len() - i,
    {
        assert(a@.skip(i as int).drop_first() =~= a@.skip(i + 1));
        assert(b@.skip(i as int).drop_first() =~= b@.skip(i + 1));
        i += 1;
    }
    if i == a.len() {
        true
    } else if i == b.len() {
        false
    } else {
        a[i] < b[i]
    }
}

/// `l` without one final `'\r'`.
pub open spec fn strip_cr(l: Seq<char>) -> Seq<char> {
    if l.len() > 0 && l.last() == '\r' {
        l.drop_last()
    } else {
        l
    }
}

pub proof fn lemma_split_lines_nonempty(s: Seq<char>)
    ensures
        split_lines(s).len() >= 1,
    decreases s.len(),
{
    if s.len() > 0 {
        lemma_split_lines_nonempty(s.drop_last());
    }
}

/// The lines of `s` as `str::lines` gives them: split at `'\n'`, a `'\r'`
/// before a `'\n'` dropped, and no empty line after a final `'\n'`.
pub open spec fn text_lines(s: Seq<char>) -> Seq<Seq<char>> {
    let ps = split_lines(s);
    let init = ps.drop_last().map_values(|l: Seq<char>| strip_cr(l));
    if ps.last().len() == 0 {
        init
    } else {
        init.push(ps.last())
    }
}

/// `str::lines`, collected.
pub fn lines_of(v: &Vec<char>) -> (r: Vec<Vec<char>>)
    ensures
        views(r@) == text_lines(v@),
{
    let ps = split_newlines(v);
    proof {
        lemma_split_lines_nonempty(v@);
    }
    let ghost pv = views(ps@);
    let n = ps.len();
    let mut r: Vec<Vec<char>> = Vec::new();
    let mut i: usize = 0;
    while i + 1 < n
        invariant
            n == ps.len(),
            n >= 1,
            pv == views(ps@),
            pv == split_lines(v@),
            i < n,
            views(r@) == pv.take(i as int).map_values(|l: Seq<char>| strip_cr(l)),
        decreases n - i,
    {
        let l = &ps[i];
        let line = if l.len() > 0 && l[l.len() - 1] == '\r' {
            slice(l, 0, l.len() - 1)
        } else {
            slice_all(l)
        };
        assert(line@ =~= strip_cr(pv[i as int]));
        let ghost before = views(r@);
        r.push(line);
        assert(views(r@) =~= before.push(line@));
        assert(pv.take(i + 1).map_values(|l: Seq<char>| strip_cr(l)) =~= pv.take(i as int).map_values(
            |l: Seq<char>| strip_cr(l),
        ).push(strip_cr(pv[i as int])));
        i += 1;
    }
    assert(pv.take(i as int) =~= pv.drop_last());
    if ps[n - 1].len() > 0 {
        let ghost before = views(r@);
        r.push(slice_all(&ps[n - 1]));
        assert(views(r@) =~= before.push(pv.last()));
    }
    r
}

} // verus!
