//! Process grouping: by canonical app name, or by the project directory that a
//! process works in (nearest marker file above its working directory).
use vstd::prelude::*;
use crate::scanner::{ProcessMemory, sat_add};
use crate::sort::{
    lemma_stable_sort_map, lemma_sum_multiset, seq_sum, stable_sort, stable_sort_of, total_preorder,
};
use crate::text::{
    decimal, lex_le, lex_le_chars, lemma_lex_total, lemma_lex_trans, push_decimal, chars_of, concat, contains, contains_seq, ends_with, lowercase, same, slice, starts_with,
    string_of, strip_leading, strip_leading_chars, to_lowercase, views,
};

verus! {

// ─── Literal tests ─────────────────────────────────────────────────────────

fn begins(s: &Vec<char>, p: &str) -> (r: bool)
    ensures
        r == p@.is_prefix_of(s@),
{
    starts_with(s, &chars_of(p))
}

fn has(s: &Vec<char>, p: &str) -> (r: bool)
    ensures
        r == contains_seq(s@, p@),
{
    contains(s, &chars_of(p))
}

fn is(s: &Vec<char>, p: &str) -> (r: bool)
    ensures
        r == (s@ == p@),
{
    same(s, &chars_of(p))
}

/// `s` without the suffix `p`, when `s` ends with `p` (`str::strip_suffix`).
pub open spec fn strip_suffix(s: Seq<char>, p: Seq<char>) -> Option<Seq<char>> {
    if p.is_suffix_of(s) {
        Some(s.take(s.len() - p.len()))
    } else {
        None
    }
}

fn strip_suffix_lit(s: &Vec<char>, p: &str) -> (r: Option<Vec<char>>)
    ensures
        r matches Some(v) ==> strip_suffix(s@, p@) == Some(v@),
        r is None ==> strip_suffix(s@, p@) is None,
{
    let pv = chars_of(p);
    if ends_with(s, &pv) {
        let v = slice(s, 0, s.len() - pv.len());
        assert(v@ =~= s@.take(s@.len() - p@.len()));
        Some(v)
    } else {
        None
    }
}

// ─── App-name canonicalisation ─────────────────────────────────────────────

/// The app that an Electron-style helper process belongs to: its name without
/// the first matching helper suffix.
pub open spec fn helper_app(name: Seq<char>) -> Option<Seq<char>> {
    if strip_suffix(name, " Helper (Renderer)"@) is Some {
        strip_suffix(name, " Helper (Renderer)"@)
    } else if strip_suffix(name, " Helper (GPU)"@) is Some {
        strip_suffix(name, " Helper (GPU)"@)
    } else if strip_suffix(name, " Helper (Plugin)"@) is Some {
        strip_suffix(name, " Helper (Plugin)"@)
    } else if strip_suffix(name, " Helper (Service)"@) is Some {
        strip_suffix(name, " Helper (Service)"@)
    } else {
        strip_suffix(name, " Helper"@)
    }
}

/// The JetBrains IDE that a Java launcher's command line names, if any.
pub open spec fn jetbrains_ide(cmdline: Seq<char>) -> Option<Seq<char>> {
    if contains_seq(cmdline, "idea"@) {
        Some("IntelliJ IDEA"@)
    } else if contains_seq(cmdline, "webstorm"@) {
        Some("WebStorm"@)
    } else if contains_seq(cmdline, "clion"@) {
        Some("CLion"@)
    } else if contains_seq(cmdline, "pycharm"@) {
        Some("PyCharm"@)
    } else if contains_seq(cmdline, "goland"@) {
        Some("GoLand"@)
    } else if contains_seq(cmdline, "rustrover"@) {
        Some("RustRover"@)
    } else if contains_seq(cmdline, "dataspell"@) {
        Some("DataSpell"@)
    } else {
        None
    }
}

/// The canonical app name of a process, from its name, the lowercase of its
/// name `n`, and its command line; the first rule that applies wins.
pub open spec fn app_name_rule(name: Seq<char>, n: Seq<char>, cmdline: Seq<char>) -> Seq<char> {
    if "google chrome"@.is_prefix_of(n) || contains_seq(n, "chrome helper"@) {
        "Google Chrome"@
    } else if "firefox"@.is_prefix_of(n) || contains_seq(n, "firefox"@) {
        "Firefox"@
    } else if "safari"@.is_prefix_of(n) || contains_seq(n, "safariweb"@) {
        "Safari"@
    } else if "arc"@.is_prefix_of(n) || contains_seq(n, "arc helper"@) {
        "Arc"@
    } else if "microsoft edge"@.is_prefix_of(n) || contains_seq(n, "edge helper"@) {
        "Microsoft Edge"@
    } else if "brave"@.is_prefix_of(n) || contains_seq(n, "brave helper"@) {
        "Brave"@
    } else if contains_seq(n, "opera"@) {
        "Opera"@
    } else if contains_seq(n, "code helper"@) || (n == "electron"@ && contains_seq(
        cmdline,
        "vscode"@,
    )) {
        "VS Code"@
    } else if contains_seq(n, "cursor helper"@) || (n == "electron"@ && contains_seq(
        cmdline,
        "cursor"@,
    )) {
        "Cursor"@
    } else if contains_seq(n, "windsurf helper"@) || (n == "electron"@ && contains_seq(
        cmdline,
        "windsurf"@,
    )) {
        "Windsurf"@
    } else if helper_app(name) is Some {
        helper_app(name)->0
    } else if (n == "java"@ || n == "launcher"@) && jetbrains_ide(cmdline) is Some {
        jetbrains_ide(cmdline)->0
    } else if contains_seq(n, "codex"@) {
        "Codex"@
    } else if "docker"@.is_prefix_of(n) || contains_seq(n, "com.docker"@) {
        "Docker"@
    } else if contains_seq(n, "slack"@) {
        "Slack"@
    } else if contains_seq(n, "discord"@) {
        "Discord"@
    } else if contains_seq(n, "telegram"@) {
        "Telegram"@
    } else if contains_seq(n, "zoom"@) {
        "Zoom"@
    } else if contains_seq(n, "spotify"@) {
        "Spotify"@
    } else if n == "node"@ || n == "node-repl"@ {
        "node"@
    } else if n == "bun"@ {
        "bun"@
    } else if n == "deno"@ {
        "deno"@
    } else if n == "python"@ || n == "python2"@ || "python3"@.is_prefix_of(n) {
        "Python"@
    } else {
        name
    }
}

/// The canonical app name of a process with this name and command line.
pub open spec fn canonical_app(name: Seq<char>, cmdline: Seq<char>) -> Seq<char> {
    app_name_rule(name, lowercase(name), cmdline)
}

fn helper_app_chars(name: &Vec<char>) -> (r: Option<Vec<char>>)
    ensures
        r matches Some(v) ==> helper_app(name@) == Some(v@),
        r is None ==> helper_app(name@) is None,
{
    let a = strip_suffix_lit(name, " Helper (Renderer)");
    if a.is_some() {
        return a;
    }
    let a = strip_suffix_lit(name, " Helper (GPU)");
    if a.is_some() {
        return a;
    }
    let a = strip_suffix_lit(name, " Helper (Plugin)");
    if a.is_some() {
        return a;
    }
    let a = strip_suffix_lit(name, " Helper (Service)");
    if a.is_some() {
        return a;
    }
    strip_suffix_lit(name, " Helper")
}

fn jetbrains_chars(cmdline: &Vec<char>) -> (r: Option<Vec<char>>)
    ensures
        r matches Some(v) ==> jetbrains_ide(cmdline@) == Some(v@),
        r is None ==> jetbrains_ide(cmdline@) is None,
{
    if has(cmdline, "idea") {
        Some(chars_of("IntelliJ IDEA"))
    } else if has(cmdline, "webstorm") {
        Some(chars_of("WebStorm"))
    } else if has(cmdline, "clion") {
        Some(chars_of("CLion"))
    } else if has(cmdline, "pycharm") {
        Some(chars_of("PyCharm"))
    } else if has(cmdline, "goland") {
        Some(chars_of("GoLand"))
    } else if has(cmdline, "rustrover") {
        Some(chars_of("RustRover"))
    } else if has(cmdline, "dataspell") {
        Some(chars_of("DataSpell"))
    } else {
        None
    }
}

/// The canonical app name, given the process name, its lowercase `lower`
/// and the command line: browsers and chat apps by name, Electron helpers by
/// the app before the helper suffix, JetBrains IDEs by the Java command line,
/// editors by their helper names, one row per dev runtime, else the name.
pub fn app_name_from_lower(name: &str, lower: &str, cmdline: &str) -> (r: String)
    ensures
        r@ == app_name_rule(name@, lower@, cmdline@),
{
    let v = app_name_chars(&chars_of(name), &chars_of(lower), &chars_of(cmdline));
    string_of(&v)
}

fn app_name_chars(name: &Vec<char>, n: &Vec<char>, cmd: &Vec<char>) -> (r: Vec<char>)
    ensures
        r@ == app_name_rule(name@, n@, cmd@),
{
    if begins(n, "google chrome") || has(n, "chrome helper") {
        return chars_of("Google Chrome");
    }
    if begins(n, "firefox") || has(n, "firefox") {
        return chars_of("Firefox");
    }
    if begins(n, "safari") || has(n, "safariweb") {
        return chars_of("Safari");
    }
    if begins(n, "arc") || has(n, "arc helper") {
        return chars_of("Arc");
    }
    if begins(n, "microsoft edge") || has(n, "edge helper") {
        return chars_of("Microsoft Edge");
    }
    if begins(n, "brave") || has(n, "brave helper") {
        return chars_of("Brave");
    }
    if has(n, "opera") {
        return chars_of("Opera");
    }
    let electron = is(n, "electron");
    if has(n, "code helper") || (electron && has(cmd, "vscode")) {
        return chars_of("VS Code");
    }
    if has(n, "cursor helper") || (electron && has(cmd, "cursor")) {
        return chars_of("Cursor");
    }
    if has(n, "windsurf helper") || (electron && has(cmd, "windsurf")) {
        return chars_of("Windsurf");
    }
    match helper_app_chars(name) {
        Some(app) => {
            return app;
        },
        None => {},
    }
    if is(n, "java") || is(n, "launcher") {
        match jetbrains_chars(cmd) {
            Some(label) => {
                return label;
            },
            None => {},
        }
    }
    if has(n, "codex") {
        return chars_of("Codex");
    }
    if begins(n, "docker") || has(n, "com.docker") {
        return chars_of("Docker");
    }
    if has(n, "slack") {
        return chars_of("Slack");
    }
    if has(n, "discord") {
        return chars_of("Discord");
    }
    if has(n, "telegram") {
        return chars_of("Telegram");
    }
    if has(n, "zoom") {
        return chars_of("Zoom");
    }
    if has(n, "spotify") {
        return chars_of("Spotify");
    }
    if is(n, "node") || is(n, "node-repl") {
        return chars_of("node");
    }
    if is(n, "bun") {
        return chars_of("bun");
    }
    if is(n, "deno") {
        return chars_of("deno");
    }
    if is(n, "python") || is(n, "python2") || begins(n, "python3") {
        return chars_of("Python");
    }
    crate::text::slice_all(name)
}

/// The canonical app name of a process (`Google Chrome Helper (Renderer)` →
/// `Google Chrome`, `Slack Helper (GPU)` → `Slack`, `python3.12` → `Python`).
pub fn canonical_app_name(name: &str, cmdline: &str) -> (r: String)
    ensures
        r@ == canonical_app(name@, cmdline@),
{
    let lower = to_lowercase(name);
    app_name_from_lower(name, lower.as_str(), cmdline)
}

// ─── Runtime families ──────────────────────────────────────────────────────

/// The runtime family of a lowercase process name, for the bridge column.
pub open spec fn family_rule(n: Seq<char>) -> Seq<char> {
    if n == "node"@ || n == "node-repl"@ || n == "npm"@ || n == "npx"@ || n == "yarn"@ || n
        == "pnpm"@ {
        "node"@
    } else if n == "bun"@ {
        "bun"@
    } else if n == "deno"@ {
        "deno"@
    } else if n == "python"@ || n == "python2"@ || "python3"@.is_prefix_of(n) || n == "uv"@ || n
        == "poetry"@ {
        "python"@
    } else if n == "ruby"@ || n == "rails"@ || n == "bundle"@ || n == "rake"@ {
        "ruby"@
    } else if n == "go"@ {
        "go"@
    } else {
        n
    }
}

/// The runtime family of a process name: leading `-` (login shells) dropped,
/// lowercased, then known runtimes mapped to their family.
pub open spec fn runtime_family_of(name: Seq<char>) -> Seq<char> {
    family_rule(lowercase(strip_leading(name, '-')))
}

fn family_chars(n: &Vec<char>) -> (r: Vec<char>)
    ensures
        r@ == family_rule(n@),
{
    if is(n, "node") || is(n, "node-repl") || is(n, "npm") || is(n, "npx") || is(n, "yarn") || is(
        n,
        "pnpm",
    ) {
        return chars_of("node");
    }
    if is(n, "bun") {
        return chars_of("bun");
    }
    if is(n, "deno") {
        return chars_of("deno");
    }
    if is(n, "python") || is(n, "python2") || begins(n, "python3") || is(n, "uv") || is(
        n,
        "poetry",
    ) {
        return chars_of("python");
    }
    if is(n, "ruby") || is(n, "rails") || is(n, "bundle") || is(n, "rake") {
        return chars_of("ruby");
    }
    if is(n, "go") {
        return chars_of("go");
    }
    crate::text::slice_all(n)
}

/// The family of a lowercase process name (`node-repl` → `node`,
/// `python3.11` → `python`; unknown names pass through).
pub fn family_from_lower(lower: &str) -> (r: String)
    ensures
        r@ == family_rule(lower@),
{
    string_of(&family_chars(&chars_of(lower)))
}

/// The runtime family of a process name (`-zsh` → `zsh`, `node` → `node`).
pub fn runtime_family(name: &str) -> (r: String)
    ensures
        r@ == runtime_family_of(name@),
{
    let stripped = string_of(&strip_leading_chars(&chars_of(name), '-'));
    let lower = to_lowercase(stripped.as_str());
    family_from_lower(lower.as_str())
}

// ─── Paths ─────────────────────────────────────────────────────────────────

/// Whether the runtime family of `name` is its own family, checked through
/// the two facts about lowercasing that this needs: lowercasing leaves the
/// family as it is, and the lowercased name (leading `-` dropped) does not
/// start with `-`. When both hold, the family of the family is the family.
pub fn family_is_stable(name: &str) -> (r: bool)
    ensures
        r == (lowercase(runtime_family_of(name@)) == runtime_family_of(name@) && (lowercase(
            strip_leading(name@, '-'),
        ).len() == 0 || lowercase(strip_leading(name@, '-'))[0] != '-')),
        r ==> runtime_family_of(runtime_family_of(name@)) == runtime_family_of(name@),
{
    let stripped = string_of(&strip_leading_chars(&chars_of(name), '-'));
    let lower = chars_of(to_lowercase(stripped.as_str()).as_str());
    let fam = runtime_family(name);
    let fam_lower = chars_of(to_lowercase(fam.as_str()).as_str());
    let ok = same(&fam_lower, &chars_of(fam.as_str())) && (lower.len() == 0 || lower[0] != '-');
    if ok {
        proof {
            crate::laws::law_runtime_family_idempotent(name@);
        }
    }
    ok
}

/// `path` with a leading `home` replaced by `~` (`/Users/me/proj` → `~/proj`).
pub open spec fn shorten(path: Seq<char>, home: Seq<char>) -> Seq<char> {
    if path == home {
        "~"@
    } else if (home + seq!['/']).is_prefix_of(path) {
        "~/"@ + path.skip(home.len() + 1int)
    } else {
        path
    }
}

/// Replaces a leading `home` in `path` by `~`.
pub fn shorten_in(path: &str, home: &str) -> (r: String)
    ensures
        r@ == shorten(path@, home@),
{
    string_of(&shorten_chars(&chars_of(path), &chars_of(home)))
}

fn shorten_chars(path: &Vec<char>, home: &Vec<char>) -> (r: Vec<char>)
    ensures
        r@ == shorten(path@, home@),
{
    if same(path, home) {
        return chars_of("~");
    }
    let mut hp = crate::text::slice_all(home);
    hp.push('/');
    assert(hp@ =~= home@ + seq!['/']);
    if starts_with(path, &hp) {
        let rest = slice(path, hp.len(), path.len());
        assert(rest@ =~= path@.skip(home@.len() + 1int));
        return concat(&chars_of("~/"), &rest);
    }
    crate::text::slice_all(path)
}

/// Directories under home that hold editor and tool internals, never projects.
pub open spec fn excluded_suffixes() -> Seq<Seq<char>> {
    seq![
        "/Library"@,
        "/.cache"@,
        "/.local"@,
        "/.bun/install"@,
        "/.npm"@,
        "/.cargo"@,
        "/.config"@,
        "/.rustup"@,
        "/.volta"@,
        "/.nvm"@,
    ]
}

/// Files whose presence makes a directory a project root.
pub open spec fn markers() -> Seq<Seq<char>> {
    seq![
        ".git"@,
        "package.json"@,
        "pyproject.toml"@,
        "bun.lockb"@,
        "bun.lock"@,
        "Cargo.toml"@,
        "go.mod"@,
        "pom.xml"@,
        "Makefile"@,
        "composer.json"@,
    ]
}

fn excluded_list() -> (r: Vec<Vec<char>>)
    ensures
        views(r@) == excluded_suffixes(),
{
    let mut r: Vec<Vec<char>> = Vec::new();
    r.push(chars_of("/Library"));
    r.push(chars_of("/.cache"));
    r.push(chars_of("/.local"));
    r.push(chars_of("/.bun/install"));
    r.push(chars_of("/.npm"));
    r.push(chars_of("/.cargo"));
    r.push(chars_of("/.config"));
    r.push(chars_of("/.rustup"));
    r.push(chars_of("/.volta"));
    r.push(chars_of("/.nvm"));
    assert(views(r@) =~= excluded_suffixes());
    r
}

fn marker_list() -> (r: Vec<Vec<char>>)
    ensures
        views(r@) == markers(),
{
    let mut r: Vec<Vec<char>> = Vec::new();
    r.push(chars_of(".git"));
    r.push(chars_of("package.json"));
    r.push(chars_of("pyproject.toml"));
    r.push(chars_of("bun.lockb"));
    r.push(chars_of("bun.lock"));
    r.push(chars_of("Cargo.toml"));
    r.push(chars_of("go.mod"));
    r.push(chars_of("pom.xml"));
    r.push(chars_of("Makefile"));
    r.push(chars_of("composer.json"));
    assert(views(r@) =~= markers());
    r
}

/// `path` lies in one of the excluded directories of `home` (by string prefix).
pub open spec fn excluded(path: Seq<char>, home: Seq<char>) -> bool {
    exists|i: int|
        0 <= i < excluded_suffixes().len() && (home + #[trigger] excluded_suffixes()[i]).is_prefix_of(
            path,
        )
}

/// Whether `path` is under one of home's editor and tool directories.
pub fn excluded_in(path: &str, home: &str) -> (r: bool)
    ensures
        r == excluded(path@, home@),
{
    excluded_chars(&chars_of(path), &chars_of(home))
}

fn excluded_chars(path: &Vec<char>, home: &Vec<char>) -> (r: bool)
    ensures
        r == excluded(path@, home@),
{
    let list = excluded_list();
    let mut i: usize = 0;
    while i < list.len()
        invariant
            i <= list.len(),
            views(list@) == excluded_suffixes(),
            forall|j: int| 0 <= j < i ==> !(home@ + excluded_suffixes()[j]).is_prefix_of(path@),
        decreases list.len() - i,
    {
        let full = concat(home, &list[i]);
        assert(list@[i as int]@ == excluded_suffixes()[i as int]);
        if starts_with(path, &full) {
            return true;
        }
        i += 1;
    }
    false
}

/// `d` joined with the relative name `m` (`Path::join`).
pub open spec fn join(d: Seq<char>, m: Seq<char>) -> Seq<char> {
    if d.len() > 0 && d.last() == '/' {
        d + m
    } else {
        d + seq!['/'] + m
    }
}

fn join_chars(d: &Vec<char>, m: &Vec<char>) -> (r: Vec<char>)
    ensures
        r@ == join(d@, m@),
{
    if d.len() > 0 && d[d.len() - 1] == '/' {
        concat(d, m)
    } else {
        let mut ds = crate::text::slice_all(d);
        ds.push('/');
        assert(ds@ =~= d@ + seq!['/']);
        concat(&ds, m)
    }
}

/// Index of the last `/` in `t`, or -1.
pub open spec fn last_slash(t: Seq<char>) -> int
    decreases t.len(),
{
    if t.len() == 0 {
        -1
    } else if t.last() == '/' {
        t.len() - 1
    } else {
        last_slash(t.drop_last())
    }
}

pub proof fn lemma_last_slash(t: Seq<char>)
    ensures
        -1 <= last_slash(t) < t.len(),
        last_slash(t) >= 0 ==> t[last_slash(t)] == '/',
    decreases t.len(),
{
    if t.len() > 0 && t.last() != '/' {
        lemma_last_slash(t.drop_last());
    }
}

/// `p` without its trailing separators and trailing `.` components
/// (`/a/b/./` → `/a/b`), where `Path::components` ends the path.
pub open spec fn trim_tail(p: Seq<char>) -> Seq<char>
    decreases p.len(),
{
    if p.len() > 0 && p.last() == '/' {
        trim_tail(p.drop_last())
    } else if p.len() >= 2 && p.last() == '.' && p[p.len() - 2] == '/' {
        trim_tail(p.drop_last())
    } else {
        p
    }
}

/// `trim_tail` keeps a prefix that ends neither in `/` nor in `/.`, is
/// unchanged by a second trim, and is what every longer prefix trims to.
pub proof fn lemma_trim_tail(p: Seq<char>)
    ensures
        trim_tail(p).len() <= p.len(),
        trim_tail(p) == p.take(trim_tail(p).len() as int),
        trim_tail(p).len() > 0 ==> trim_tail(p).last() != '/',
        trim_tail(trim_tail(p)) == trim_tail(p),
        forall|m: int|
            trim_tail(p).len() <= m <= p.len() ==> #[trigger] trim_tail(p.take(m)) == trim_tail(p),
    decreases p.len(),
{
    let t = trim_tail(p);
    if (p.len() > 0 && p.last() == '/') || (p.len() >= 2 && p.last() == '.' && p[p.len() - 2]
        == '/') {
        let q = p.drop_last();
        lemma_trim_tail(q);
        assert(q.take(t.len() as int) =~= p.take(t.len() as int));
        assert forall|m: int| t.len() <= m <= p.len() implies #[trigger] trim_tail(p.take(m)) == t by {
            if m == p.len() {
                assert(p.take(m) =~= p);
            } else {
                assert(q.take(m) =~= p.take(m));
            }
        }
    } else {
        assert(p.take(p.len() as int) =~= p);
    }
}

/// The parent directory (`PathBuf::pop`): trailing separators and `.`
/// components ignored, the last component dropped, and the rest ended as
/// `Path::components` ends it; `None` for the root and for the empty path.
pub open spec fn parent_dir(d: Seq<char>) -> Option<Seq<char>> {
    let t = trim_tail(d);
    if t.len() == 0 {
        None
    } else {
        let k = last_slash(t);
        if k < 0 {
            Some(Seq::empty())
        } else {
            let q = trim_tail(t.take(k));
            if q.len() == 0 {
                Some(seq!['/'])
            } else {
                Some(q)
            }
        }
    }
}

pub proof fn lemma_parent_shorter(d: Seq<char>)
    ensures
        parent_dir(d) matches Some(p) ==> p.len() < d.len(),
{
    let t = trim_tail(d);
    lemma_trim_tail(d);
    if t.len() > 0 {
        lemma_last_slash(t);
        let k = last_slash(t);
        if k >= 0 {
            lemma_trim_tail(t.take(k));
            assert(t.len() >= 2);
        }
    }
}

/// Two paths name the same directory, trailing separators and `.`
/// components aside.
pub open spec fn same_dir(a: Seq<char>, b: Seq<char>) -> bool {
    trim_tail(a) == trim_tail(b)
}

/// `d` and its ancestors, nearest first, up to and including `home`.
pub open spec fn walk_up(d: Seq<char>, home: Seq<char>) -> Seq<Seq<char>>
    decreases d.len(),
{
    if same_dir(d, home) {
        seq![d]
    } else {
        match parent_dir(d) {
            None => seq![d],
            Some(p) => {
                proof {
                    lemma_parent_shorter(d);
                }
                seq![d] + walk_up(p, home)
            },
        }
    }
}

/// `dir` is `home` or lies below it.
pub open spec fn under_home(dir: Seq<char>, home: Seq<char>) -> bool {
    dir == home || (home + seq!['/']).is_prefix_of(dir)
}

/// The directories searched for a project marker, nearest first: none unless
/// `dir` is absolute, under `home` and not excluded; otherwise `dir` and its
/// ancestors up to `home`.
pub open spec fn search_dirs(dir: Seq<char>, home: Seq<char>) -> Seq<Seq<char>> {
    if dir.len() > 0 && dir[0] == '/' && !excluded(dir, home) && under_home(dir, home) {
        walk_up(dir, home)
    } else {
        Seq::empty()
    }
}

/// Some marker file of `d` is among the existing paths.
pub open spec fn has_marker(d: Seq<char>, existing: Seq<Seq<char>>) -> bool {
    exists|i: int| 0 <= i < markers().len() && existing.contains(join(d, #[trigger] markers()[i]))
}

/// The first of `ds` that holds a marker.
pub open spec fn first_marked(ds: Seq<Seq<char>>, existing: Seq<Seq<char>>) -> Option<Seq<char>>
    decreases ds.len(),
{
    if ds.len() == 0 {
        None
    } else if has_marker(ds[0], existing) {
        Some(ds[0])
    } else {
        first_marked(ds.drop_first(), existing)
    }
}

/// The project root of `dir`: the nearest searched directory holding a marker,
/// when exactly the paths in `existing` exist.
pub open spec fn marker_root(dir: Seq<char>, home: Seq<char>, existing: Seq<Seq<char>>) -> Option<
    Seq<char>,
> {
    first_marked(search_dirs(dir, home), existing)
}

fn trim_tail_chars(v: &Vec<char>) -> (r: Vec<char>)
    ensures
        r@ == trim_tail(v@),
{
    let mut n: usize = v.len();
    assert(v@.take(n as int) =~= v@);
    while n > 0 && (v[n - 1] == '/' || (n >= 2 && v[n - 1] == '.' && v[n - 2] == '/'))
        invariant
            n <= v.len(),
            trim_tail(v@.take(n as int)) == trim_tail(v@),
        decreases n,
    {
        assert(v@.take(n as int).drop_last() =~= v@.take(n - 1));
        n -= 1;
    }
    let r = slice(v, 0, n);
    assert(r@ =~= v@.take(n as int));
    r
}

fn parent_chars(d: &Vec<char>) -> (r: Option<Vec<char>>)
    ensures
        r matches Some(p) ==> parent_dir(d@) == Some(p@),
        r is None ==> parent_dir(d@) is None,
{
    let t = trim_tail_chars(d);
    if t.len() == 0 {
        return None;
    }
    let mut j: usize = t.len();
    assert(t@.take(j as int) =~= t@);
    while j > 0 && t[j - 1] != '/'
        invariant
            j <= t.len(),
            last_slash(t@) == last_slash(t@.take(j as int)),
        decreases j,
    {
        assert(t@.take(j as int).drop_last() =~= t@.take(j - 1));
        j -= 1;
    }
    if j == 0 {
        return Some(Vec::new());
    }
    let k = j - 1;
    assert(last_slash(t@) == k);
    let q = trim_tail_chars(&slice(&t, 0, k));
    assert(t@.subrange(0, k as int) =~= t@.take(k as int));
    if q.len() == 0 {
        let mut root: Vec<char> = Vec::new();
        root.push('/');
        assert(root@ =~= seq!['/']);
        Some(root)
    } else {
        Some(q)
    }
}

fn same_dir_chars(a: &Vec<char>, b: &Vec<char>) -> (r: bool)
    ensures
        r == same_dir(a@, b@),
{
    same(&trim_tail_chars(a), &trim_tail_chars(b))
}

fn search_dirs_chars(dir: &Vec<char>, home: &Vec<char>) -> (r: Vec<Vec<char>>)
    ensures
        views(r@) == search_dirs(dir@, home@),
{
    let mut hp = crate::text::slice_all(home);
    hp.push('/');
    assert(hp@ =~= home@ + seq!['/']);
    if dir.len() == 0 || dir[0] != '/' || excluded_chars(dir, home) || !(same(dir, home)
        || starts_with(dir, &hp)) {
        return Vec::new();
    }
    let mut out: Vec<Vec<char>> = Vec::new();
    let mut cur = crate::text::slice_all(dir);
    assert(search_dirs(dir@, home@) == walk_up(dir@, home@));
    assert(views(out@) =~= Seq::<Seq<char>>::empty());
    loop
        invariant
            search_dirs(dir@, home@) == walk_up(dir@, home@),
            walk_up(dir@, home@) == views(out@) + walk_up(cur@, home@),
        decreases cur@.len(),
    {
        let ghost before = views(out@);
        let ghost c = cur@;
        let stop = same_dir_chars(&cur, home);
        let parent = if stop {
            None
        } else {
            parent_chars(&cur)
        };
        proof {
            lemma_parent_shorter(c);
        }
        out.push(cur);
        assert(views(out@) =~= before + seq![c]);
        match parent {
            Some(p) => {
                assert(walk_up(c, home@) =~= seq![c] + walk_up(p@, home@));
                assert(walk_up(dir@, home@) =~= views(out@) + walk_up(p@, home@));
                cur = p;
            },
            None => {
                assert(walk_up(c, home@) =~= seq![c]);
                assert(walk_up(dir@, home@) =~= views(out@));
                return out;
            },
        }
    }
}

/// Whether some marker of `d` is among `existing`.
fn has_marker_among(
    d: &Vec<char>,
    marks: &Vec<Vec<char>>,
    existing: &Vec<Vec<char>>,
) -> (r: bool)
    requires
        views(marks@) == markers(),
    ensures
        r == has_marker(d@, views(existing@)),
{
    let mut i: usize = 0;
    while i < marks.len()
        invariant
            i <= marks.len(),
            views(marks@) == markers(),
            forall|j: int| 0 <= j < i ==> !views(existing@).contains(join(d@, markers()[j])),
        decreases marks.len() - i,
    {
        let path = join_chars(d, &marks[i]);
        assert(marks@[i as int]@ == markers()[i as int]);
        if contains_chars(existing, &path) {
            return true;
        }
        i += 1;
    }
    false
}

/// Whether `x` is one of `list`.
fn contains_chars(list: &Vec<Vec<char>>, x: &Vec<char>) -> (r: bool)
    ensures
        r == views(list@).contains(x@),
{
    let mut i: usize = 0;
    while i < list.len()
        invariant
            i <= list.len(),
            forall|j: int| 0 <= j < i ==> views(list@)[j] != x@,
        decreases list.len() - i,
    {
        if same(&list[i], x) {
            assert(views(list@)[i as int] == x@);
            return true;
        }
        i += 1;
    }
    false
}

fn strings_to_chars(v: &Vec<String>) -> (r: Vec<Vec<char>>)
    ensures
        views(r@) == v@.map_values(|s: String| s@),
{
    let mut r: Vec<Vec<char>> = Vec::new();
    let mut i: usize = 0;
    while i < v.len()
        invariant
            i <= v.len(),
            views(r@) == v@.take(i as int).map_values(|s: String| s@),
        decreases v.len() - i,
    {
        r.push(chars_of(v[i].as_str()));
        assert(v@.take(i + 1).map_values(|s: String| s@) =~= v@.take(i as int).map_values(
            |s: String| s@,
        ).push(v@[i as int]@));
        assert(views(r@) =~= v@.take(i + 1).map_values(|s: String| s@));
        i += 1;
    }
    assert(v@.take(v.len() as int) =~= v@);
    r
}

fn first_marked_chars(ds: &Vec<Vec<char>>, existing: &Vec<Vec<char>>) -> (r: Option<Vec<char>>)
    ensures
        r matches Some(d) ==> first_marked(views(ds@), views(existing@)) == Some(d@),
        r is None ==> first_marked(views(ds@), views(existing@)) is None,
{
    let marks = marker_list();
    let mut i: usize = 0;
    assert(views(ds@).skip(0) =~= views(ds@));
    while i < ds.len()
        invariant
            i <= ds.len(),
            views(marks@) == markers(),
            first_marked(views(ds@), views(existing@)) == first_marked(
                views(ds@).skip(i as int),
                views(existing@),
            ),
        decreases ds.len() - i,
    {
        assert(views(ds@).skip(i as int).drop_first() =~= views(ds@).skip(i + 1));
        assert(views(ds@).skip(i as int)[0] == ds@[i as int]@);
        if has_marker_among(&ds[i], &marks, existing) {
            return Some(crate::text::slice_all(&ds[i]));
        }
        i += 1;
    }
    None
}

/// The project root of `dir` when exactly the paths in `existing` exist: the
/// nearest directory from `dir` up to `home` that holds a marker file.
/// Paths outside home, relative paths and editor internals have none.
pub fn find_marker_up_among(dir: &str, home: &str, existing: &Vec<String>) -> (r: Option<String>)
    ensures
        r matches Some(d) ==> marker_root(dir@, home@, existing@.map_values(|s: String| s@))
            == Some(d@),
        r is None ==> marker_root(dir@, home@, existing@.map_values(|s: String| s@)) is None,
{
    let ds = search_dirs_chars(&chars_of(dir), &chars_of(home));
    let ex = strings_to_chars(existing);
    match first_marked_chars(&ds, &ex) {
        Some(d) => Some(string_of(&d)),
        None => None,
    }
}

/// `std::path::Path::exists`: whether the path exists on disk now. The result
/// depends on the file system, so nothing is claimed of it.
#[verifier::external_body]
fn path_exists(path: &str) -> bool {
    std::path::Path::new(path).exists()
}

proof fn lemma_first_marked_in(ds: Seq<Seq<char>>, existing: Seq<Seq<char>>)
    ensures
        first_marked(ds, existing) matches Some(d) ==> ds.contains(d),
    decreases ds.len(),
{
    if ds.len() > 0 {
        if has_marker(ds[0], existing) {
            assert(ds[0] == ds[0]);
        } else {
            let rest = ds.drop_first();
            lemma_first_marked_in(rest, existing);
            if first_marked(rest, existing) is Some {
                let d = first_marked(rest, existing)->0;
                let k = choose|k: int| 0 <= k < rest.len() && rest[k] == d;
                assert(ds[k + 1] == d);
            }
        }
    }
}

pub proof fn lemma_first_marked_none(ds: Seq<Seq<char>>)
    ensures
        first_marked(ds, Seq::<Seq<char>>::empty()) is None,
    decreases ds.len(),
{
    if ds.len() > 0 {
        assert(!has_marker(ds[0], Seq::<Seq<char>>::empty()));
        lemma_first_marked_none(ds.drop_first());
    }
}

/// The character sequences of strings.
pub open spec fn texts(v: Seq<String>) -> Seq<Seq<char>> {
    v.map_values(|s: String| s@)
}

/// The paths of the marker files of directory `d`, in list order.
pub open spec fn dir_probes(d: Seq<char>) -> Seq<Seq<char>> {
    markers().map_values(|m: Seq<char>| join(d, m))
}

/// The marker-file paths of the directories, directory after directory.
pub open spec fn probes_over(ds: Seq<Seq<char>>) -> Seq<Seq<char>>
    decreases ds.len(),
{
    if ds.len() == 0 {
        Seq::empty()
    } else {
        dir_probes(ds[0]) + probes_over(ds.drop_first())
    }
}

/// The paths probed in search of the project root of `dir`: the marker files
/// of the searched directories, nearest directory first, markers in list order.
pub open spec fn marker_probes(dir: Seq<char>, home: Seq<char>) -> Seq<Seq<char>> {
    probes_over(search_dirs(dir, home))
}

/// The path answered first as present: `paths[k]` for the least `k` with
/// `answers[k]`, or nothing when no answer is `true`.
pub open spec fn first_reported_path(paths: Seq<Seq<char>>, answers: Seq<bool>) -> Seq<Seq<char>>
    decreases answers.len(),
{
    if answers.len() == 0 || paths.len() == 0 {
        Seq::empty()
    } else if answers[0] {
        seq![paths[0]]
    } else {
        first_reported_path(paths.drop_first(), answers.drop_first())
    }
}

/// The answers of a search that probes in order and stops at the first
/// path reported present: at most one per path, and only the last may be
/// `true`.
pub open spec fn probe_answers_shape(answers: Seq<bool>, n: nat) -> bool {
    &&& answers.len() <= n
    &&& forall|j: int| 0 <= j < answers.len() - 1 ==> !#[trigger] answers[j]
    &&& answers.len() == n || (answers.len() > 0 && answers[answers.len() - 1])
}

/// With every answer `false`, no path is picked.
pub proof fn lemma_no_path_reported(paths: Seq<Seq<char>>, answers: Seq<bool>)
    requires
        forall|j: int| 0 <= j < answers.len() ==> !#[trigger] answers[j],
    ensures
        first_reported_path(paths, answers) == Seq::<Seq<char>>::empty(),
    decreases answers.len(),
{
    if answers.len() > 0 && paths.len() > 0 {
        assert(!answers[0]);
        assert forall|j: int| 0 <= j < answers.drop_first().len() implies !#[trigger] answers.drop_first()[j] by {
            assert(answers.drop_first()[j] == answers[j + 1]);
        }
        lemma_no_path_reported(paths.drop_first(), answers.drop_first());
    }
}

/// When the last answer is the only `true` one, the path asked last is picked.
pub proof fn lemma_last_path_reported(paths: Seq<Seq<char>>, answers: Seq<bool>)
    requires
        0 < answers.len() <= paths.len(),
        answers[answers.len() - 1],
        forall|j: int| 0 <= j < answers.len() - 1 ==> !#[trigger] answers[j],
    ensures
        first_reported_path(paths, answers) == seq![paths[answers.len() - 1]],
    decreases answers.len(),
{
    if !answers[0] {
        assert forall|j: int| 0 <= j < answers.drop_first().len() - 1 implies !#[trigger] answers.drop_first()[j] by {
            assert(answers.drop_first()[j] == answers[j + 1]);
        }
        assert(answers.drop_first()[answers.len() - 2] == answers[answers.len() - 1]);
        lemma_last_path_reported(paths.drop_first(), answers.drop_first());
        assert(paths.drop_first()[answers.len() - 2] == paths[answers.len() - 1]);
    } else {
        assert(answers.len() == 1);
    }
}

/// Appends the marker-file paths of `d`.
fn push_dir_probes(out: &mut Vec<String>, d: &Vec<char>, marks: &Vec<Vec<char>>)
    requires
        views(marks@) == markers(),
    ensures
        texts(final(out)@) == texts(old(out)@) + dir_probes(d@),
{
    let ghost start = texts(out@);
    let mut k: usize = 0;
    assert(dir_probes(d@).take(0) =~= Seq::<Seq<char>>::empty());
    assert(start + dir_probes(d@).take(0) =~= start);
    while k < marks.len()
        invariant
            k <= marks.len(),
            views(marks@) == markers(),
            texts(out@) == start + dir_probes(d@).take(k as int),
        decreases marks.len() - k,
    {
        let p = string_of(&join_chars(d, &marks[k]));
        let ghost before = texts(out@);
        out.push(p);
        assert(views(marks@)[k as int] == marks@[k as int]@);
        assert(texts(out@) =~= before.push(join(d@, markers()[k as int])));
        assert(dir_probes(d@).take(k + 1) =~= dir_probes(d@).take(k as int).push(
            join(d@, markers()[k as int]),
        ));
        assert(texts(out@) =~= start + dir_probes(d@).take(k + 1));
        k += 1;
    }
    assert(dir_probes(d@).take(marks.len() as int) =~= dir_probes(d@));
}

/// Appends the marker-file paths of the directories, directory after directory.
fn push_probes(out: &mut Vec<String>, ds: &Vec<Vec<char>>, marks: &Vec<Vec<char>>)
    requires
        views(marks@) == markers(),
    ensures
        texts(final(out)@) == texts(old(out)@) + probes_over(views(ds@)),
{
    let ghost start = texts(out@);
    let ghost all = views(ds@);
    let mut i: usize = 0;
    assert(all.skip(0) =~= all);
    assert(start + probes_over(all) =~= start + probes_over(all));
    while i < ds.len()
        invariant
            i <= ds.len(),
            views(marks@) == markers(),
            all == views(ds@),
            texts(out@) + probes_over(all.skip(i as int)) == start + probes_over(all),
        decreases ds.len() - i,
    {
        let ghost before = texts(out@);
        assert(all.skip(i as int).drop_first() =~= all.skip(i + 1));
        assert(all.skip(i as int)[0] == ds@[i as int]@);
        push_dir_probes(out, &ds[i], marks);
        assert(probes_over(all.skip(i as int)) == dir_probes(ds@[i as int]@) + probes_over(
            all.skip(i + 1),
        ));
        assert(texts(out@) + probes_over(all.skip(i + 1)) =~= before + probes_over(
            all.skip(i as int),
        ));
        i += 1;
    }
    assert(all.skip(i as int) =~= Seq::<Seq<char>>::empty());
    assert(texts(out@) + Seq::<Seq<char>>::empty() =~= texts(out@));
}

/// The paths that the disk search for the project root of `dir` probes, in
/// the order probed: the marker files of the searched directories, nearest
/// directory first, markers in list order.
pub fn marker_probe_paths(dir: &str, home: &str) -> (r: Vec<String>)
    ensures
        texts(r@) == marker_probes(dir@, home@),
{
    let ds = search_dirs_chars(&chars_of(dir), &chars_of(home));
    let marks = marker_list();
    let mut r: Vec<String> = Vec::new();
    assert(texts(r@) =~= Seq::<Seq<char>>::empty());
    push_probes(&mut r, &ds, &marks);
    assert(texts(r@) =~= marker_probes(dir@, home@));
    r
}

/// Asks the disk about `paths` in order, stopping after the first that it
/// reports present: the answers, one per path asked.
fn probe_in_order(paths: &Vec<String>) -> (answers: Vec<bool>)
    ensures
        probe_answers_shape(answers@, paths@.len()),
{
    let mut answers: Vec<bool> = Vec::new();
    let mut i: usize = 0;
    while i < paths.len()
        invariant
            i <= paths.len(),
            answers@.len() == i,
            forall|j: int| 0 <= j < i ==> !#[trigger] answers@[j],
        decreases paths.len() - i,
    {
        let present = path_exists(paths[i].as_str());
        answers.push(present);
        if present {
            return answers;
        }
        i += 1;
    }
    answers
}

/// The path answered first as present (see `first_reported_path`), as a
/// list of at most one path.
pub fn first_reported(paths: &Vec<String>, answers: &Vec<bool>) -> (r: Vec<String>)
    requires
        answers.len() <= paths.len(),
    ensures
        texts(r@) == first_reported_path(texts(paths@), answers@),
{
    let ghost tp = texts(paths@);
    let mut i: usize = 0;
    assert(tp.skip(0) =~= tp);
    assert(answers@.skip(0) =~= answers@);
    while i < answers.len()
        invariant
            i <= answers.len(),
            answers.len() <= paths.len(),
            tp == texts(paths@),
            first_reported_path(tp, answers@) == first_reported_path(
                tp.skip(i as int),
                answers@.skip(i as int),
            ),
        decreases answers.len() - i,
    {
        assert(tp.skip(i as int).drop_first() =~= tp.skip(i + 1));
        assert(answers@.skip(i as int).drop_first() =~= answers@.skip(i + 1));
        assert(answers@.skip(i as int)[0] == answers@[i as int]);
        assert(tp.skip(i as int)[0] == paths@[i as int]@);
        if answers[i] {
            let mut r: Vec<String> = Vec::new();
            r.push(paths[i].clone());
            assert(texts(r@) =~= seq![tp.skip(i as int)[0]]);
            return r;
        }
        i += 1;
    }
    let r: Vec<String> = Vec::new();
    assert(answers@.skip(i as int).len() == 0);
    assert(texts(r@) =~= Seq::<Seq<char>>::empty());
    r
}

/// The project root of `dir`, probing the disk: the nearest directory from
/// `dir` up to `home` that holds a marker file. The disk is asked about the
/// paths of `marker_probe_paths` in order, stopping at the first it reports
/// present; `first_reported` picks that path and `find_marker_up_among`
/// decides over it. So the answer is the project root for whatever the disk
/// answered. It is one of the searched directories, and there is none for
/// paths outside home, relative paths and editor internals.
pub fn find_marker_up_in(dir: &str, home: &str) -> (r: Option<String>)
    ensures
        r matches Some(d) ==> search_dirs(dir@, home@).contains(d@),
        search_dirs(dir@, home@).len() == 0 ==> r is None,
        exists|answers: Seq<bool>|
            probe_answers_shape(answers, marker_probes(dir@, home@).len()) && marker_root(
                dir@,
                home@,
                first_reported_path(marker_probes(dir@, home@), answers),
            ) == match r {
                Some(d) => Some(d@),
                None => None,
            },
{
    let probes = marker_probe_paths(dir, home);
    let answers = probe_in_order(&probes);
    let present = first_reported(&probes, &answers);
    let r = find_marker_up_among(dir, home, &present);
    proof {
        let e = present@.map_values(|s: String| s@);
        assert(e =~= texts(present@));
        lemma_first_marked_in(search_dirs(dir@, home@), e);
        assert(marker_root(dir@, home@, e) == match r {
            Some(d) => Some(d@),
            None => None,
        });
    }
    r
}

/// The first of the words that lies below `home` and has a project root.
pub open spec fn root_from_words(
    ws: Seq<Seq<char>>,
    home: Seq<char>,
    existing: Seq<Seq<char>>,
) -> Option<Seq<char>>
    decreases ws.len(),
{
    if ws.len() == 0 {
        None
    } else if (home + seq!['/']).is_prefix_of(ws[0]) && marker_root(ws[0], home, existing) is Some {
        marker_root(ws[0], home, existing)
    } else {
        root_from_words(ws.drop_first(), home, existing)
    }
}

/// A process's project root: that of its working directory, else that of the
/// first path below home on its command line.
pub open spec fn project_root(
    cwd: Seq<char>,
    cmdline: Seq<char>,
    home: Seq<char>,
    existing: Seq<Seq<char>>,
) -> Option<Seq<char>> {
    if marker_root(cwd, home, existing) is Some {
        marker_root(cwd, home, existing)
    } else {
        root_from_words(crate::text::words(cmdline), home, existing)
    }
}

/// `d` could be found as the project root of a process with this working
/// directory and command line, whatever the disk holds.
pub open spec fn root_candidate(
    cwd: Seq<char>,
    cmdline: Seq<char>,
    home: Seq<char>,
    d: Seq<char>,
) -> bool {
    ||| search_dirs(cwd, home).contains(d)
    ||| exists|i: int|
        0 <= i < crate::text::words(cmdline).len() && (home + seq!['/']).is_prefix_of(
            #[trigger] crate::text::words(cmdline)[i],
        ) && search_dirs(crate::text::words(cmdline)[i], home).contains(d)
}

/// The project root of a process when exactly the paths in `existing` exist:
/// found from its working directory, else from the first path below home on
/// its command line.
pub fn project_root_among(cwd: &str, cmdline: &str, home: &str, existing: &Vec<String>) -> (r:
    Option<String>)
    ensures
        r matches Some(d) ==> project_root(
            cwd@,
            cmdline@,
            home@,
            existing@.map_values(|s: String| s@),
        ) == Some(d@),
        r is None ==> project_root(cwd@, cmdline@, home@, existing@.map_values(|s: String| s@))
            is None,
{
    let ex = strings_to_chars(existing);
    let h = chars_of(home);
    let ds = search_dirs_chars(&chars_of(cwd), &h);
    match first_marked_chars(&ds, &ex) {
        Some(d) => {
            return Some(string_of(&d));
        },
        None => {},
    }
    let mut hp = crate::text::slice_all(&h);
    hp.push('/');
    assert(hp@ =~= h@ + seq!['/']);
    let ws = crate::text::split_words(&chars_of(cmdline));
    let ghost all = views(ws@);
    let mut i: usize = 0;
    assert(all.skip(0) =~= all);
    while i < ws.len()
        invariant
            i <= ws.len(),
            all == views(ws@),
            all == crate::text::words(cmdline@),
            hp@ == h@ + seq!['/'],
            h@ == home@,
            views(ex@) == existing@.map_values(|s: String| s@),
            project_root(cwd@, cmdline@, home@, views(ex@)) == root_from_words(
                all,
                home@,
                views(ex@),
            ),
            root_from_words(all, home@, views(ex@)) == root_from_words(
                all.skip(i as int),
                home@,
                views(ex@),
            ),
        decreases ws.len() - i,
    {
        assert(all.skip(i as int).drop_first() =~= all.skip(i + 1));
        assert(all.skip(i as int)[0] == ws@[i as int]@);
        if starts_with(&ws[i], &hp) {
            let wd = search_dirs_chars(&ws[i], &h);
            match first_marked_chars(&wd, &ex) {
                Some(d) => {
                    return Some(string_of(&d));
                },
                None => {},
            }
        }
        i += 1;
    }
    None
}

/// The paths probed for the command-line paths below home, in order.
pub open spec fn word_probes(ws: Seq<Seq<char>>, home: Seq<char>) -> Seq<Seq<char>>
    decreases ws.len(),
{
    if ws.len() == 0 {
        Seq::empty()
    } else {
        (if (home + seq!['/']).is_prefix_of(ws[0]) {
            marker_probes(ws[0], home)
        } else {
            Seq::empty()
        }) + word_probes(ws.drop_first(), home)
    }
}

/// The paths that the disk search for a process's project root probes, in
/// the order probed: those for its working directory, then those for each
/// path below home on its command line.
pub open spec fn root_probes(cwd: Seq<char>, cmdline: Seq<char>, home: Seq<char>) -> Seq<
    Seq<char>,
> {
    marker_probes(cwd, home) + word_probes(crate::text::words(cmdline), home)
}

/// The paths that the disk search for a process's project root probes, in
/// the order probed (see `root_probes`).
pub fn root_probe_paths(cwd: &str, cmdline: &str, home: &str) -> (r: Vec<String>)
    ensures
        texts(r@) == root_probes(cwd@, cmdline@, home@),
{
    let h = chars_of(home);
    let marks = marker_list();
    let mut r = marker_probe_paths(cwd, home);
    let mut hp = crate::text::slice_all(&h);
    hp.push('/');
    assert(hp@ =~= h@ + seq!['/']);
    let ws = crate::text::split_words(&chars_of(cmdline));
    let ghost all = views(ws@);
    let ghost start = texts(r@);
    let mut i: usize = 0;
    assert(all.skip(0) =~= all);
    while i < ws.len()
        invariant
            i <= ws.len(),
            all == views(ws@),
            all == crate::text::words(cmdline@),
            hp@ == h@ + seq!['/'],
            h@ == home@,
            views(marks@) == markers(),
            start == marker_probes(cwd@, home@),
            texts(r@) + word_probes(all.skip(i as int), home@) == start + word_probes(all, home@),
        decreases ws.len() - i,
    {
        let ghost before = texts(r@);
        assert(all.skip(i as int).drop_first() =~= all.skip(i + 1));
        assert(all.skip(i as int)[0] == ws@[i as int]@);
        if starts_with(&ws[i], &hp) {
            let ds = search_dirs_chars(&ws[i], &h);
            push_probes(&mut r, &ds, &marks);
            assert(texts(r@) + word_probes(all.skip(i + 1), home@) =~= before + word_probes(
                all.skip(i as int),
                home@,
            ));
        } else {
            assert(word_probes(all.skip(i as int), home@) =~= word_probes(all.skip(i + 1), home@));
        }
        i += 1;
    }
    assert(all.skip(i as int) =~= Seq::<Seq<char>>::empty());
    assert(texts(r@) + Seq::<Seq<char>>::empty() =~= texts(r@));
    r
}

proof fn lemma_root_from_words_in(ws: Seq<Seq<char>>, home: Seq<char>, existing: Seq<Seq<char>>)
    ensures
        root_from_words(ws, home, existing) matches Some(d) ==> exists|i: int|
            0 <= i < ws.len() && (home + seq!['/']).is_prefix_of(#[trigger] ws[i]) && search_dirs(
                ws[i],
                home,
            ).contains(d),
    decreases ws.len(),
{
    if ws.len() > 0 {
        if (home + seq!['/']).is_prefix_of(ws[0]) && marker_root(ws[0], home, existing) is Some {
            lemma_first_marked_in(search_dirs(ws[0], home), existing);
        } else {
            let rest = ws.drop_first();
            lemma_root_from_words_in(rest, home, existing);
            if root_from_words(rest, home, existing) is Some {
                let d = root_from_words(rest, home, existing)->0;
                let i = choose|i: int|
                    0 <= i < rest.len() && (home + seq!['/']).is_prefix_of(#[trigger] rest[i])
                        && search_dirs(rest[i], home).contains(d);
                assert(ws[i + 1] == rest[i]);
            }
        }
    }
}

proof fn lemma_project_root_candidate(
    cwd: Seq<char>,
    cmdline: Seq<char>,
    home: Seq<char>,
    existing: Seq<Seq<char>>,
)
    ensures
        project_root(cwd, cmdline, home, existing) matches Some(d) ==> root_candidate(
            cwd,
            cmdline,
            home,
            d,
        ),
{
    lemma_first_marked_in(search_dirs(cwd, home), existing);
    lemma_root_from_words_in(crate::text::words(cmdline), home, existing);
}

/// The project root of a process, probing the disk: from its working
/// directory, else from the first path below home on its command line that
/// has one. The disk is asked about the paths of `root_probe_paths` in
/// order, stopping at the first it reports present; `first_reported` picks
/// that path and `project_root_among` decides over it. So the answer is the
/// project root for whatever the disk answered. It is one of the directories
/// searched for these paths.
pub fn project_root_in(cwd: &str, cmdline: &str, home: &str) -> (r: Option<String>)
    ensures
        r matches Some(d) ==> root_candidate(cwd@, cmdline@, home@, d@),
        exists|answers: Seq<bool>|
            probe_answers_shape(answers, root_probes(cwd@, cmdline@, home@).len()) && project_root(
                cwd@,
                cmdline@,
                home@,
                first_reported_path(root_probes(cwd@, cmdline@, home@), answers),
            ) == match r {
                Some(d) => Some(d@),
                None => None,
            },
{
    let probes = root_probe_paths(cwd, cmdline, home);
    let answers = probe_in_order(&probes);
    let present = first_reported(&probes, &answers);
    let r = project_root_among(cwd, cmdline, home, &present);
    proof {
        let e = present@.map_values(|s: String| s@);
        assert(e =~= texts(present@));
        lemma_project_root_candidate(cwd@, cmdline@, home@, e);
        assert(project_root(cwd@, cmdline@, home@, e) == match r {
            Some(d) => Some(d@),
            None => None,
        });
    }
    r
}

// ─── Groups ────────────────────────────────────────────────────────────────

/// How processes are grouped.
#[derive(Debug, Clone, Copy, PartialEq, Eq, Structural)]
pub enum GroupMode {
    /// By canonical app name (Chrome, Slack, node, …).
    App,
    /// By project directory; processes without a project fall back to their app name.
    Project,
}

/// Whether a group is keyed by a project path or by an app name.
#[derive(Debug, Clone, Copy, PartialEq, Eq, Structural)]
pub enum GroupKind {
    App,
    Project,
}

/// Processes that share a key, with their summed memory.
#[derive(Debug, Clone)]
pub struct AppGroup {
    pub name: String,
    pub kind: GroupKind,
    pub processes: Vec<ProcessMemory>,
    pub total_rss: u64,
    pub total_swap: u64,
    pub thread_count: usize,
}

pub open spec fn rss_of() -> spec_fn(ProcessMemory) -> nat {
    |p: ProcessMemory| p.rss as nat
}

pub open spec fn swap_of() -> spec_fn(ProcessMemory) -> nat {
    |p: ProcessMemory| p.swap as nat
}

pub open spec fn threads_of() -> spec_fn(ProcessMemory) -> nat {
    |p: ProcessMemory| p.threads as nat
}

/// Larger resident memory first.
pub open spec fn by_rss_desc() -> spec_fn(ProcessMemory, ProcessMemory) -> bool {
    |a: ProcessMemory, b: ProcessMemory| a.rss >= b.rss
}

/// Larger total first.
pub open spec fn by_total_desc() -> spec_fn(AppGroup, AppGroup) -> bool {
    |a: AppGroup, b: AppGroup| a.spec_total() >= b.spec_total()
}

impl AppGroup {
    /// Resident plus swapped bytes of the group.
    pub open spec fn spec_total(&self) -> u64 {
        sat_add(self.total_rss, self.total_swap)
    }

    /// Resident plus swapped bytes of the group, saturating at `u64::MAX`.
    pub fn total(&self) -> (r: u64)
        ensures
            r == self.spec_total(),
    {
        self.total_rss.saturating_add(self.total_swap)
    }

    /// Sets the totals to the sums over the group's processes.
    fn recalc(&mut self)
        requires
            seq_sum(old(self).processes@, rss_of()) <= u64::MAX,
            seq_sum(old(self).processes@, swap_of()) <= u64::MAX,
            seq_sum(old(self).processes@, threads_of()) <= usize::MAX,
        ensures
            final(self).name == old(self).name,
            final(self).kind == old(self).kind,
            final(self).processes == old(self).processes,
            final(self).total_rss == seq_sum(old(self).processes@, rss_of()),
            final(self).total_swap == seq_sum(old(self).processes@, swap_of()),
            final(self).thread_count == seq_sum(old(self).processes@, threads_of()),
    {
        let mut rss: u64 = 0;
        let mut swap: u64 = 0;
        let mut threads: usize = 0;
        let mut i: usize = 0;
        let ghost ps = self.processes@;
        assert(ps.take(0) =~= Seq::<ProcessMemory>::empty());
        while i < self.processes.len()
            invariant
                i <= ps.len(),
                ps == self.processes@,
                rss == seq_sum(ps.take(i as int), rss_of()),
                swap == seq_sum(ps.take(i as int), swap_of()),
                threads == seq_sum(ps.take(i as int), threads_of()),
                seq_sum(ps, rss_of()) <= u64::MAX,
                seq_sum(ps, swap_of()) <= u64::MAX,
                seq_sum(ps, threads_of()) <= usize::MAX,
            decreases ps.len() - i,
        {
            assert(ps.take(i + 1).drop_last() =~= ps.take(i as int));
            proof {
                lemma_prefix_sum(ps, i + 1, rss_of());
                lemma_prefix_sum(ps, i + 1, swap_of());
                lemma_prefix_sum(ps, i + 1, threads_of());
            }
            let p = &self.processes[i];
            rss = rss + p.rss;
            swap = swap + p.swap;
            threads = threads + p.threads;
            i += 1;
        }
        assert(ps.take(i as int) =~= ps);
        self.total_rss = rss;
        self.total_swap = swap;
        self.thread_count = threads;
    }
}

/// A prefix sums to no more than the whole.
pub proof fn lemma_prefix_sum<T>(s: Seq<T>, i: int, f: spec_fn(T) -> nat)
    requires
        0 <= i <= s.len(),
    ensures
        seq_sum(s.take(i), f) <= seq_sum(s, f),
    decreases s.len(),
{
    if i < s.len() {
        assert(s.drop_last().take(i) =~= s.take(i));
        lemma_prefix_sum(s.drop_last(), i, f);
    } else {
        assert(s.take(i) =~= s);
    }
}

/// The project roots as character sequences.
pub open spec fn root_views(roots: Seq<Option<String>>) -> Seq<Option<Seq<char>>> {
    roots.map_values(|o: Option<String>| root_view(o))
}

/// A project root as a character sequence.
pub open spec fn root_view(o: Option<String>) -> Option<Seq<char>> {
    match o {
        Some(s) => Some(s@),
        None => None,
    }
}

/// The grouping key of a process: its project root in project mode when it
/// has one, else its canonical app name.
pub open spec fn key_of(p: ProcessMemory, mode: GroupMode, root: Option<Seq<char>>) -> (
    GroupKind,
    Seq<char>,
) {
    match mode {
        GroupMode::Project => match root {
            Some(r) => (GroupKind::Project, r),
            None => (GroupKind::App, canonical_app(p.name@, p.cmdline@)),
        },
        GroupMode::App => (GroupKind::App, canonical_app(p.name@, p.cmdline@)),
    }
}

/// The keys of all processes, `roots[i]` being the project root of `procs[i]`.
pub open spec fn keys_of(
    procs: Seq<ProcessMemory>,
    mode: GroupMode,
    roots: Seq<Option<Seq<char>>>,
) -> Seq<(GroupKind, Seq<char>)> {
    Seq::new(procs.len(), |i: int| key_of(procs[i], mode, roots[i]))
}

/// Some key has this name.
pub open spec fn names_contain(ks: Seq<(GroupKind, Seq<char>)>, name: Seq<char>) -> bool {
    exists|i: int| 0 <= i < ks.len() && (#[trigger] ks[i]).1 == name
}

/// The key names, each once, in order of first appearance.
pub open spec fn distinct_names(ks: Seq<(GroupKind, Seq<char>)>) -> Seq<Seq<char>>
    decreases ks.len(),
{
    if ks.len() == 0 {
        Seq::empty()
    } else {
        let d = distinct_names(ks.drop_last());
        if d.contains(ks.last().1) {
            d
        } else {
            d.push(ks.last().1)
        }
    }
}

/// The kind of the first key with this name.
pub open spec fn first_kind(ks: Seq<(GroupKind, Seq<char>)>, name: Seq<char>) -> GroupKind
    decreases ks.len(),
{
    if ks.len() == 0 {
        GroupKind::App
    } else if names_contain(ks.drop_last(), name) {
        first_kind(ks.drop_last(), name)
    } else {
        ks.last().0
    }
}

/// The processes whose key has this name, in the order given.
pub open spec fn members(
    procs: Seq<ProcessMemory>,
    ks: Seq<(GroupKind, Seq<char>)>,
    name: Seq<char>,
) -> Seq<ProcessMemory>
    decreases procs.len(),
{
    if procs.len() == 0 {
        Seq::empty()
    } else {
        let m = members(procs.drop_last(), ks.drop_last(), name);
        if ks.last().1 == name {
            m.push(procs.last())
        } else {
            m
        }
    }
}

/// `g` is the group of the processes whose key is `name`: named by the app,
/// or by the project path with home shortened to `~`; its processes by
/// resident memory, largest first (ties in the order given); its totals the
/// sums over its processes.
pub open spec fn group_for(
    g: AppGroup,
    procs: Seq<ProcessMemory>,
    ks: Seq<(GroupKind, Seq<char>)>,
    name: Seq<char>,
    home: Seq<char>,
) -> bool {
    let kind = first_kind(ks, name);
    &&& g.kind == kind
    &&& g.name@ == (if kind == GroupKind::Project {
        shorten(name, home)
    } else {
        name
    })
    &&& stable_sort_of(g.processes@, members(procs, ks, name), by_rss_desc())
    &&& g.total_rss == seq_sum(g.processes@, rss_of())
    &&& g.total_swap == seq_sum(g.processes@, swap_of())
    &&& g.thread_count == seq_sum(g.processes@, threads_of())
}

/// `r` is the grouping of `procs`: one group per distinct key, ordered by
/// total memory, largest first, groups of equal total in order of their key's
/// first appearance.
pub open spec fn grouped(
    procs: Seq<ProcessMemory>,
    mode: GroupMode,
    home: Seq<char>,
    roots: Seq<Option<Seq<char>>>,
    r: Seq<AppGroup>,
) -> bool {
    let ks = keys_of(procs, mode, roots);
    let names = distinct_names(ks);
    exists|u: Seq<AppGroup>|
        {
            &&& u.len() == names.len()
            &&& forall|i: int| 0 <= i < u.len() ==> group_for(#[trigger] u[i], procs, ks, names[i], home)
            &&& stable_sort_of(r, u, by_total_desc())
        }
}

/// The memory sums of a process list fit their types.
pub open spec fn sums_fit(procs: Seq<ProcessMemory>) -> bool {
    &&& seq_sum(procs, rss_of()) <= u64::MAX
    &&& seq_sum(procs, swap_of()) <= u64::MAX
    &&& seq_sum(procs, threads_of()) <= usize::MAX
}

pub proof fn lemma_distinct_names_contain(ks: Seq<(GroupKind, Seq<char>)>, name: Seq<char>)
    ensures
        distinct_names(ks).contains(name) <==> names_contain(ks, name),
    decreases ks.len(),
{
    if ks.len() > 0 {
        lemma_distinct_names_contain(ks.drop_last(), name);
        if names_contain(ks, name) && !names_contain(ks.drop_last(), name) {
            let i = choose|i: int| 0 <= i < ks.len() && (#[trigger] ks[i]).1 == name;
            if i < ks.len() - 1 {
                assert(ks.drop_last()[i].1 == name);
            }
            let d = distinct_names(ks.drop_last());
            if !d.contains(ks.last().1) {
                assert(d.push(ks.last().1)[d.len() as int] == name);
            }
        }
        if names_contain(ks.drop_last(), name) {
            let i = choose|i: int| 0 <= i < ks.len() - 1 && (#[trigger] ks.drop_last()[i]).1 == name;
            assert(ks[i].1 == name);
        }
        let d = distinct_names(ks.drop_last());
        if distinct_names(ks).contains(name) && !d.contains(name) {
            assert(ks[ks.len() - 1].1 == name);
        }
        if d.contains(name) && !d.contains(ks.last().1) {
            let j = choose|j: int| 0 <= j < d.len() && d[j] == name;
            assert(d.push(ks.last().1)[j] == name);
        }
    }
}

pub proof fn lemma_members_sum(
    procs: Seq<ProcessMemory>,
    ks: Seq<(GroupKind, Seq<char>)>,
    name: Seq<char>,
    f: spec_fn(ProcessMemory) -> nat,
)
    ensures
        seq_sum(members(procs, ks, name), f) <= seq_sum(procs, f),
    decreases procs.len(),
{
    if procs.len() > 0 {
        lemma_members_sum(procs.drop_last(), ks.drop_last(), name, f);
        let m = members(procs.drop_last(), ks.drop_last(), name);
        if ks.last().1 == name {
            assert(m.push(procs.last()).drop_last() =~= m);
        }
    }
}

fn rss_at_least(a: &ProcessMemory, b: &ProcessMemory) -> (r: bool)
    ensures
        r == (a.rss >= b.rss),
{
    a.rss >= b.rss
}

fn total_at_least(a: &AppGroup, b: &AppGroup) -> (r: bool)
    ensures
        r == (a.spec_total() >= b.spec_total()),
{
    a.total() >= b.total()
}

fn key_chars(p: &ProcessMemory, mode: GroupMode, root: Option<&String>) -> (r: (GroupKind, Vec<char>))
    ensures
        (r.0, r.1@) == key_of(
            *p,
            mode,
            match root {
                Some(s) => Some(s@),
                None => None,
            },
        ),
{
    match mode {
        GroupMode::Project => match root {
            Some(r) => (GroupKind::Project, chars_of(r.as_str())),
            None => (
                GroupKind::App,
                chars_of(canonical_app_name(p.name.as_str(), p.cmdline.as_str()).as_str()),
            ),
        },
        GroupMode::App => (
            GroupKind::App,
            chars_of(canonical_app_name(p.name.as_str(), p.cmdline.as_str()).as_str()),
        ),
    }
}

/// Groups processes whose project roots are given (`roots[i]` for
/// `processes[i]`; consulted in project mode only). See `grouped`.
pub fn group_by_roots(
    processes: &[ProcessMemory],
    mode: GroupMode,
    home: &str,
    roots: &Vec<Option<String>>,
) -> (r: Vec<AppGroup>)
    requires
        mode == GroupMode::Project ==> roots.len() == processes.len(),
        sums_fit(processes@),
    ensures
        grouped(processes@, mode, home@, root_views(roots@), r@),
{
    let ghost procs = processes@;
    let ghost ks = keys_of(procs, mode, root_views(roots@));
    let n = processes.len();
    // Keys of all processes.
    let mut kinds: Vec<GroupKind> = Vec::new();
    let mut names: Vec<Vec<char>> = Vec::new();
    let mut i: usize = 0;
    while i < n
        invariant
            n == procs.len(),
            procs == processes@,
            mode == GroupMode::Project ==> roots.len() == n,
            ks == keys_of(procs, mode, root_views(roots@)),
            i <= n,
            kinds.len() == i,
            names.len() == i,
            forall|j: int| 0 <= j < i ==> #[trigger] kinds@[j] == ks[j].0,
            forall|j: int| 0 <= j < i ==> (#[trigger] names@[j])@ == ks[j].1,
        decreases n - i,
    {
        let root = if mode == GroupMode::Project {
            match &roots[i] {
                Some(r) => Some(r),
                None => None,
            }
        } else {
            None
        };
        let (k, nm) = key_chars(&processes[i], mode, root);
        proof {
            assert(ks[i as int] == key_of(procs[i as int], mode, root_views(roots@)[i as int]));
            if mode == GroupMode::Project {
                assert(root_views(roots@)[i as int] == match root {
                    Some(s) => Some(s@),
                    None => None::<Seq<char>>,
                });
            }
            assert((k, nm@) == ks[i as int]);
        }
        let ghost old_kinds = kinds@;
        let ghost old_names = names@;
        kinds.push(k);
        names.push(nm);
        assert(kinds@ =~= old_kinds.push(k));
        assert(names@ =~= old_names.push(nm));
        i += 1;
    }
    // Distinct names in order of first appearance, with the kind of the first.
    let mut dn: Vec<Vec<char>> = Vec::new();
    let mut dk: Vec<GroupKind> = Vec::new();
    i = 0;
    assert(ks.take(0) =~= Seq::<(GroupKind, Seq<char>)>::empty());
    assert(views(dn@) =~= Seq::<Seq<char>>::empty());
    while i < n
        invariant
            n == procs.len(),
            ks.len() == n,
            i <= n,
            kinds.len() == n,
            names.len() == n,
            forall|j: int| 0 <= j < n ==> #[trigger] kinds@[j] == ks[j].0,
            forall|j: int| 0 <= j < n ==> (#[trigger] names@[j])@ == ks[j].1,
            views(dn@) == distinct_names(ks.take(i as int)),
            dk.len() == dn.len(),
            forall|j: int|
                0 <= j < dn.len() ==> dk@[j] == first_kind(ks.take(i as int), (#[trigger] dn@[j])@),
        decreases n - i,
    {
        let ghost pre = ks.take(i as int);
        assert(ks.take(i + 1).drop_last() =~= pre);
        assert(ks.take(i + 1).last() == ks[i as int]);
        proof {
            lemma_distinct_names_contain(pre, ks[i as int].1);
        }
        let found = contains_chars(&dn, &names[i]);
        if !found {
            let ghost before = views(dn@);
            dn.push(crate::text::slice_all(&names[i]));
            dk.push(kinds[i]);
            assert(views(dn@) =~= before.push(ks[i as int].1));
        }
        proof {
            assert forall|j: int| 0 <= j < dn.len() implies dk@[j] == first_kind(
                ks.take(i + 1),
                (#[trigger] dn@[j])@,
            ) by {
                let dp = distinct_names(pre);
                if j < dp.len() {
                    assert(dp[j] == dn@[j]@);
                    assert(dp.contains(dn@[j]@));
                    lemma_distinct_names_contain(pre, dn@[j]@);
                } else {
                    assert(dn@[j]@ == ks[i as int].1);
                }
            }
        }
        i += 1;
    }
    assert(ks.take(n as int) =~= ks);
    // One group per distinct name.
    let ghost dnames = distinct_names(ks);
    let mut u: Vec<AppGroup> = Vec::new();
    let h = chars_of(home);
    let mut j: usize = 0;
    while j < dn.len()
        invariant
            n == procs.len(),
            procs == processes@,
            ks.len() == n,
            sums_fit(procs),
            h@ == home@,
            names.len() == n,
            forall|q: int| 0 <= q < n ==> (#[trigger] names@[q])@ == ks[q].1,
            views(dn@) == dnames,
            dnames == distinct_names(ks),
            dk.len() == dn.len(),
            forall|q: int| 0 <= q < dn.len() ==> dk@[q] == first_kind(ks, (#[trigger] dn@[q])@),
            j <= dn.len(),
            u.len() == j,
            forall|q: int| 0 <= q < j ==> group_for(#[trigger] u@[q], procs, ks, dnames[q], home@),
        decreases dn.len() - j,
    {
        let ghost key = dn@[j as int]@;
        assert(dnames[j as int] == key);
        let mut ms: Vec<ProcessMemory> = Vec::new();
        let mut q: usize = 0;
        assert(procs.take(0) =~= Seq::<ProcessMemory>::empty());
        while q < n
            invariant
                n == procs.len(),
                procs == processes@,
                ks.len() == n,
                names.len() == n,
                forall|x: int| 0 <= x < n ==> (#[trigger] names@[x])@ == ks[x].1,
                j < dn.len(),
                key == dn@[j as int]@,
                q <= n,
                ms@ == members(procs.take(q as int), ks.take(q as int), key),
            decreases n - q,
        {
            assert(procs.take(q + 1).drop_last() =~= procs.take(q as int));
            assert(ks.take(q + 1).drop_last() =~= ks.take(q as int));
            assert(ks.take(q + 1).last() == ks[q as int]);
            if same(&names[q], &dn[j]) {
                ms.push(processes[q].duplicate());
            }
            q += 1;
        }
        assert(procs.take(n as int) =~= procs);
        assert(ks.take(n as int) =~= ks);
        let ghost msv = ms@;
        let sorted = stable_sort(
            ms,
            rss_at_least,
            Ghost(by_rss_desc()),
        );
        proof {
            lemma_members_sum(procs, ks, key, rss_of());
            lemma_members_sum(procs, ks, key, swap_of());
            lemma_members_sum(procs, ks, key, threads_of());
            lemma_sum_multiset(sorted@, msv, rss_of());
            lemma_sum_multiset(sorted@, msv, swap_of());
            lemma_sum_multiset(sorted@, msv, threads_of());
        }
        let kind = dk[j];
        let name = if kind == GroupKind::Project {
            string_of(&shorten_chars(&dn[j], &h))
        } else {
            string_of(&dn[j])
        };
        let mut g = AppGroup {
            name,
            kind,
            processes: sorted,
            total_rss: 0,
            total_swap: 0,
            thread_count: 0,
        };
        g.recalc();
        u.push(g);
        j += 1;
    }
    let ghost uv = u@;
    let r = stable_sort(
        u,
        total_at_least,
        Ghost(by_total_desc()),
    );
    assert(uv.len() == dnames.len());
    r
}

// ─── Bridge column ─────────────────────────────────────────────────────────

/// Each item once, in order of first appearance.
pub open spec fn dedup(s: Seq<Seq<char>>) -> Seq<Seq<char>>
    decreases s.len(),
{
    if s.len() == 0 {
        Seq::empty()
    } else {
        let d = dedup(s.drop_last());
        if d.contains(s.last()) {
            d
        } else {
            d.push(s.last())
        }
    }
}

/// How often `x` occurs in `s`.
pub open spec fn occurrences(s: Seq<Seq<char>>, x: Seq<char>) -> nat
    decreases s.len(),
{
    if s.len() == 0 {
        0
    } else {
        occurrences(s.drop_last(), x) + if s.last() == x {
            1nat
        } else {
            0nat
        }
    }
}

pub proof fn lemma_dedup(s: Seq<Seq<char>>)
    ensures
        forall|x: Seq<char>| #[trigger] dedup(s).contains(x) <==> s.contains(x),
        dedup(s).no_duplicates(),
        dedup(s).len() <= s.len(),
    decreases s.len(),
{
    if s.len() > 0 {
        lemma_dedup(s.drop_last());
        let d = dedup(s.drop_last());
        assert forall|x: Seq<char>| #[trigger] dedup(s).contains(x) <==> s.contains(x) by {
            if s.contains(x) && x != s.last() {
                let i = choose|i: int| 0 <= i < s.len() && s[i] == x;
                assert(s.drop_last()[i] == x);
            }
            if s.drop_last().contains(x) {
                let i = choose|i: int| 0 <= i < s.len() - 1 && s.drop_last()[i] == x;
                assert(s[i] == x);
            }
            if !d.contains(s.last()) && d.contains(x) {
                let i = choose|i: int| 0 <= i < d.len() && d[i] == x;
                assert(d.push(s.last())[i] == x);
            }
            if !d.contains(s.last()) && x == s.last() {
                assert(d.push(s.last())[d.len() as int] == x);
            }
            if x == s.last() {
                assert(s[s.len() - 1] == x);
            }
        }
    }
}

pub proof fn lemma_occurrences(s: Seq<Seq<char>>, x: Seq<char>)
    ensures
        occurrences(s, x) <= s.len(),
        !s.contains(x) ==> occurrences(s, x) == 0,
    decreases s.len(),
{
    if s.len() > 0 {
        lemma_occurrences(s.drop_last(), x);
        if !s.contains(x) {
            assert(s[s.len() - 1] != x);
            assert(!s.drop_last().contains(x)) by {
                if s.drop_last().contains(x) {
                    let i = choose|i: int| 0 <= i < s.len() - 1 && s.drop_last()[i] == x;
                    assert(s[i] == x);
                }
            }
        }
    }
}

/// The runtime family of every process.
pub open spec fn families_of(ps: Seq<ProcessMemory>) -> Seq<Seq<char>> {
    ps.map_values(|p: ProcessMemory| runtime_family_of(p.name@))
}

/// Each runtime family once, in order of first appearance, with its number of processes.
pub open spec fn runtime_counts(ps: Seq<ProcessMemory>) -> Seq<(Seq<char>, nat)> {
    let fams = families_of(ps);
    dedup(fams).map_values(|f: Seq<char>| (f, occurrences(fams, f)))
}

/// More processes first, then by family name.
pub open spec fn count_first() -> spec_fn((Seq<char>, nat), (Seq<char>, nat)) -> bool {
    |a: (Seq<char>, nat), b: (Seq<char>, nat)| a.1 > b.1 || (a.1 == b.1 && lex_le(a.0, b.0))
}

/// `family:count`.
pub open spec fn count_entry(e: (Seq<char>, nat)) -> Seq<char> {
    e.0 + seq![':'] + decimal(e.1)
}

/// The entries joined by single spaces.
pub open spec fn join_counts(es: Seq<(Seq<char>, nat)>) -> Seq<char>
    decreases es.len(),
{
    if es.len() == 0 {
        Seq::empty()
    } else if es.len() == 1 {
        count_entry(es[0])
    } else {
        join_counts(es.drop_last()) + seq![' '] + count_entry(es.last())
    }
}

/// The given project roots, shortened, in process order.
pub open spec fn shortened_roots(roots: Seq<Option<Seq<char>>>, home: Seq<char>) -> Seq<Seq<char>>
    decreases roots.len(),
{
    if roots.len() == 0 {
        Seq::empty()
    } else {
        let r = shortened_roots(roots.drop_last(), home);
        match roots.last() {
            Some(d) => r.push(shorten(d, home)),
            None => r,
        }
    }
}

/// Nothing, the one project, or how many projects there are.
pub open spec fn projects_text(ps: Seq<Seq<char>>) -> Seq<char> {
    if ps.len() == 0 {
        Seq::empty()
    } else if ps.len() == 1 {
        ps[0]
    } else {
        decimal(ps.len()) + " projects"@
    }
}

/// The bridge text of group `g`, `roots[i]` being the project root of its
/// i-th process: in project mode a project group lists its runtimes
/// (`node:15 bun:3`, most processes first, ties by name) and an app group
/// reads `(app)`; in app mode an app group names its distinct projects; other
/// groups show nothing.
pub open spec fn bridge_text(
    g: AppGroup,
    mode: GroupMode,
    home: Seq<char>,
    roots: Seq<Option<Seq<char>>>,
    text: Seq<char>,
) -> bool {
    if mode == GroupMode::Project && g.kind == GroupKind::Project {
        exists|es: Seq<(Seq<char>, nat)>|
            stable_sort_of(es, runtime_counts(g.processes@), count_first()) && text
                == join_counts(es)
    } else if mode == GroupMode::App && g.kind == GroupKind::App {
        text == projects_text(dedup(shortened_roots(roots, home)))
    } else if mode == GroupMode::Project {
        text == "(app)"@
    } else {
        text == Seq::<char>::empty()
    }
}

spec fn entry_view(e: (Vec<char>, usize)) -> (Seq<char>, nat) {
    (e.0@, e.1 as nat)
}

spec fn entry_views(s: Seq<(Vec<char>, usize)>) -> Seq<(Seq<char>, nat)> {
    s.map_values(|e: (Vec<char>, usize)| entry_view(e))
}

spec fn counted(d: Seq<Seq<char>>, s: Seq<Seq<char>>) -> Seq<(Seq<char>, nat)> {
    d.map_values(|f: Seq<char>| (f, occurrences(s, f)))
}

spec fn entry_first() -> spec_fn((Vec<char>, usize), (Vec<char>, usize)) -> bool {
    |a: (Vec<char>, usize), b: (Vec<char>, usize)| count_first()(entry_view(a), entry_view(b))
}

fn entry_before(a: &(Vec<char>, usize), b: &(Vec<char>, usize)) -> (r: bool)
    ensures
        r == entry_first()(*a, *b),
{
    a.1 > b.1 || (a.1 == b.1 && lex_le_chars(&a.0, &b.0))
}

proof fn lemma_entry_order()
    ensures
        total_preorder(entry_first()),
{
    assert forall|a: (Vec<char>, usize), b: (Vec<char>, usize)| #[trigger]
        entry_first()(a, b) || entry_first()(b, a) by {
        lemma_lex_total(a.0@, b.0@);
    }
    assert forall|a: (Vec<char>, usize), b: (Vec<char>, usize), c: (Vec<char>, usize)| #[trigger]
        entry_first()(a, b) && #[trigger] entry_first()(b, c) implies entry_first()(a, c) by {
        if a.1 == b.1 && b.1 == c.1 {
            lemma_lex_trans(a.0@, b.0@, c.0@);
        }
    }
}

fn runtime_breakdown(ps: &Vec<ProcessMemory>) -> (r: Vec<char>)
    ensures
        exists|es: Seq<(Seq<char>, nat)>|
            stable_sort_of(es, runtime_counts(ps@), count_first()) && r@ == join_counts(es),
{
    let ghost fams = families_of(ps@);
    let mut entries: Vec<(Vec<char>, usize)> = Vec::new();
    let mut i: usize = 0;
    assert(fams.take(0) =~= Seq::<Seq<char>>::empty());
    while i < ps.len()
        invariant
            i <= ps.len(),
            fams == families_of(ps@),
            entry_views(entries@) == counted(dedup(fams.take(i as int)), fams.take(i as int)),
        decreases ps.len() - i,
    {
        let fam = chars_of(runtime_family(ps[i].name.as_str()).as_str());
        let ghost pre = fams.take(i as int);
        let ghost post = fams.take(i + 1);
        assert(post.drop_last() =~= pre);
        assert(post.last() == fam@);
        proof {
            lemma_dedup(pre);
            lemma_occurrences(pre, fam@);
        }
        let ghost d = dedup(pre);
        let ghost old_entries = entries@;
        assert(entry_views(old_entries).len() == old_entries.len());
        assert(counted(d, pre).len() == d.len());
        assert(old_entries.len() == d.len());
        assert forall|k: int| 0 <= k < old_entries.len() implies (#[trigger] old_entries[k]).0@
            == d[k] && old_entries[k].1 as nat == occurrences(pre, d[k]) by {
            assert(entry_views(old_entries)[k] == entry_view(old_entries[k]));
            assert(counted(d, pre)[k] == (d[k], occurrences(pre, d[k])));
        }
        let mut k: usize = 0;
        while k < entries.len() && !same(&entries[k].0, &fam)
            invariant
                k <= entries.len(),
                entries@ == old_entries,
                forall|m: int| 0 <= m < k ==> (#[trigger] entries@[m]).0@ != fam@,
            decreases entries.len() - k,
        {
            k += 1;
        }
        if k < entries.len() {
            let c = entries[k].1;
            proof {
                assert(d[k as int] == fam@);
                assert(d.contains(fam@));
                assert(occurrences(pre, fam@) <= pre.len());
            }
            let name = crate::text::slice_all(&entries[k].0);
            entries.set(k, (name, c + 1));
            proof {
                assert(dedup(post) == d);
                assert forall|m: int| 0 <= m < entries@.len() implies (#[trigger] entries@[m]).0@
                    == d[m] && entries@[m].1 as nat == occurrences(post, d[m]) by {
                    if m != k {
                        assert(d[m] != d[k as int]);
                    }
                }
                assert(entry_views(entries@) =~= counted(dedup(post), post));
            }
        } else {
            proof {
                assert forall|m: int| 0 <= m < d.len() implies d[m] != fam@ by {
                    assert(old_entries[m].0@ == d[m]);
                }
                assert(!d.contains(fam@));
                assert(!pre.contains(fam@));
            }
            entries.push((fam, 1));
            proof {
                assert(dedup(post) == d.push(fam@));
                assert forall|m: int| 0 <= m < entries@.len() implies (#[trigger] entries@[m]).0@
                    == dedup(post)[m] && entries@[m].1 as nat == occurrences(post, dedup(post)[m]) by {
                    if m < d.len() {
                        assert(d[m] != fam@) by {
                            assert(d.contains(d[m]));
                        }
                    }
                }
                assert(entry_views(entries@) =~= counted(dedup(post), post));
            }
        }
        i += 1;
    }
    assert(fams.take(ps.len() as int) =~= fams);
    let ghost unsorted = entries@;
    proof {
        lemma_entry_order();
    }
    let sorted = stable_sort(entries, entry_before, Ghost(entry_first()));
    proof {
        lemma_stable_sort_map(
            sorted@,
            unsorted,
            entry_first(),
            |e: (Vec<char>, usize)| entry_view(e),
            count_first(),
        );
    }
    let ghost es = sorted@.map_values(|e: (Vec<char>, usize)| entry_view(e));
    let mut out: Vec<char> = Vec::new();
    let mut k: usize = 0;
    assert(es.take(0) =~= Seq::<(Seq<char>, nat)>::empty());
    while k < sorted.len()
        invariant
            k <= sorted.len(),
            es == sorted@.map_values(|e: (Vec<char>, usize)| entry_view(e)),
            out@ == join_counts(es.take(k as int)),
        decreases sorted.len() - k,
    {
        let ghost before = out@;
        if k > 0 {
            out.push(' ');
        }
        let mut j: usize = 0;
        while j < sorted[k].0.len()
            invariant
                k < sorted.len(),
                j <= sorted@[k as int].0.len(),
                out@ == (if k > 0 {
                    before + seq![' ']
                } else {
                    before
                }) + sorted@[k as int].0@.take(j as int),
            decreases sorted@[k as int].0.len() - j,
        {
            out.push(sorted[k].0[j]);
            assert(sorted@[k as int].0@.take(j + 1) =~= sorted@[k as int].0@.take(j as int).push(
                sorted@[k as int].0@[j as int],
            ));
            j += 1;
        }
        assert(sorted@[k as int].0@.take(j as int) =~= sorted@[k as int].0@);
        out.push(':');
        push_decimal(&mut out, sorted[k].1 as u64);
        proof {
            let e = es[k as int];
            assert(e == entry_view(sorted@[k as int]));
            assert(es.take(k + 1).drop_last() =~= es.take(k as int));
            if k == 0 {
                assert(out@ =~= count_entry(e));
            } else {
                assert(out@ =~= before + seq![' '] + count_entry(e));
            }
        }
        k += 1;
    }
    assert(es.take(sorted.len() as int) =~= es);
    out
}

fn projects_line(roots: &Vec<Option<String>>, home: &Vec<char>) -> (r: Vec<char>)
    ensures
        r@ == projects_text(dedup(shortened_roots(root_views(roots@), home@))),
{
    let ghost rv = root_views(roots@);
    let mut projs: Vec<Vec<char>> = Vec::new();
    let mut i: usize = 0;
    assert(rv.take(0) =~= Seq::<Option<Seq<char>>>::empty());
    while i < roots.len()
        invariant
            i <= roots.len(),
            rv == root_views(roots@),
            views(projs@) == dedup(shortened_roots(rv.take(i as int), home@)),
        decreases roots.len() - i,
    {
        assert(rv.take(i + 1).drop_last() =~= rv.take(i as int));
        assert(rv.take(i + 1).last() == rv[i as int]);
        match &roots[i] {
            Some(d) => {
                assert(rv[i as int] == Some(d@));
                let s = shorten_chars(&chars_of(d.as_str()), home);
                proof {
                    let prev = shortened_roots(rv.take(i as int), home@);
                    assert(shortened_roots(rv.take(i + 1), home@) == prev.push(s@));
                    assert(prev.push(s@).drop_last() =~= prev);
                }
                if !contains_chars(&projs, &s) {
                    let ghost before = views(projs@);
                    projs.push(s);
                    assert(views(projs@) =~= before.push(s@));
                }
            },
            None => {
                assert(rv[i as int] is None);
                assert(shortened_roots(rv.take(i + 1), home@) == shortened_roots(
                    rv.take(i as int),
                    home@,
                ));
            },
        }
        i += 1;
    }
    assert(rv.take(roots.len() as int) =~= rv);
    if projs.len() == 0 {
        Vec::new()
    } else if projs.len() == 1 {
        crate::text::slice_all(&projs[0])
    } else {
        let mut out: Vec<char> = Vec::new();
        push_decimal(&mut out, projs.len() as u64);
        let out = concat(&out, &chars_of(" projects"));
        out
    }
}

impl AppGroup {
    /// The bridge column, `roots[i]` being the project root of the group's
    /// i-th process (consulted for app groups in app mode only). See `bridge_text`.
    pub fn bridge_by_roots(&self, mode: GroupMode, home: &str, roots: &Vec<Option<String>>) -> (r:
        String)
        requires
            mode == GroupMode::App && self.kind == GroupKind::App ==> roots.len()
                == self.processes.len(),
        ensures
            bridge_text(*self, mode, home@, root_views(roots@), r@),
    {
        if mode == GroupMode::Project && self.kind == GroupKind::Project {
            string_of(&runtime_breakdown(&self.processes))
        } else if mode == GroupMode::App && self.kind == GroupKind::App {
            string_of(&projects_line(roots, &chars_of(home)))
        } else if mode == GroupMode::Project {
            string_of(&chars_of("(app)"))
        } else {
            String::new()
        }
    }

    /// The bridge column, probing the disk for the projects of an app group's
    /// processes: the bridge for project roots that are the answers of their
    /// disk searches (see `roots_possible`).
    pub fn bridge(&self, mode: GroupMode, home: &str) -> (r: String)
        ensures
            exists|roots: Seq<Option<Seq<char>>>|
                roots_possible(self.processes@, home@, roots) && bridge_text(
                    *self,
                    mode,
                    home@,
                    roots,
                    r@,
                ),
    {
        let roots = if mode == GroupMode::App && self.kind == GroupKind::App {
            disk_roots(&self.processes, home)
        } else {
            no_roots(self.processes.len())
        };
        let r = self.bridge_by_roots(mode, home, &roots);
        proof {
            let rv = root_views(roots@);
            assert forall|i: int| 0 <= i < rv.len() implies root_reported(
                self.processes@[i],
                home@,
                #[trigger] rv[i],
            ) by {
                assert(rv[i] == root_view(roots@[i]));
                if rv[i] is None {
                    lemma_no_root_reported(self.processes@[i], home@);
                }
            }
            assert forall|i: int| 0 <= i < rv.len() implies (#[trigger] rv[i] matches Some(d)
                ==> root_candidate(self.processes@[i].cwd@, self.processes@[i].cmdline@, home@, d)) by {
                assert(rv[i] == root_view(roots@[i]));
            }
            assert(roots_possible(self.processes@, home@, rv));
        }
        r
    }
}

/// `n` absent roots.
fn no_roots(n: usize) -> (r: Vec<Option<String>>)
    ensures
        r.len() == n,
        forall|i: int| 0 <= i < n ==> #[trigger] r@[i] is None,
{
    let mut r: Vec<Option<String>> = Vec::new();
    while r.len() < n
        invariant
            r.len() <= n,
            forall|i: int| 0 <= i < r.len() ==> #[trigger] r@[i] is None,
        decreases n - r.len(),
    {
        r.push(None);
    }
    r
}

/// The project root of each process, probing the disk.
fn disk_roots(ps: &[ProcessMemory], home: &str) -> (r: Vec<Option<String>>)
    ensures
        r.len() == ps.len(),
        forall|i: int|
            0 <= i < ps.len() ==> (#[trigger] r@[i] matches Some(d) ==> root_candidate(
                ps@[i].cwd@,
                ps@[i].cmdline@,
                home@,
                d@,
            )),
        forall|i: int| 0 <= i < ps.len() ==> root_reported(ps@[i], home@, root_view(#[trigger] r@[i])),
{
    let mut r: Vec<Option<String>> = Vec::new();
    let mut i: usize = 0;
    while i < ps.len()
        invariant
            i <= ps.len(),
            r.len() == i,
            forall|j: int|
                0 <= j < i ==> (#[trigger] r@[j] matches Some(d) ==> root_candidate(
                    ps@[j].cwd@,
                    ps@[j].cmdline@,
                    home@,
                    d@,
                )),
            forall|j: int| 0 <= j < i ==> root_reported(ps@[j], home@, root_view(#[trigger] r@[j])),
        decreases ps.len() - i,
    {
        let root = project_root_in(ps[i].cwd.as_str(), ps[i].cmdline.as_str(), home);
        assert(root_reported(ps@[i as int], home@, root_view(root)));
        r.push(root);
        i += 1;
    }
    r
}

/// `root` is the project root of `p` for some answers of the disk to its
/// search, which asks about `root_probes` in order and stops at the first
/// path reported present.
pub open spec fn root_reported(p: ProcessMemory, home: Seq<char>, root: Option<Seq<char>>) -> bool {
    exists|answers: Seq<bool>|
        probe_answers_shape(answers, root_probes(p.cwd@, p.cmdline@, home).len()) && project_root(
            p.cwd@,
            p.cmdline@,
            home,
            first_reported_path(root_probes(p.cwd@, p.cmdline@, home), answers),
        ) == root
}

pub proof fn lemma_root_from_words_empty(ws: Seq<Seq<char>>, home: Seq<char>)
    ensures
        root_from_words(ws, home, Seq::<Seq<char>>::empty()) is None,
    decreases ws.len(),
{
    if ws.len() > 0 {
        lemma_first_marked_none(search_dirs(ws[0], home));
        lemma_root_from_words_empty(ws.drop_first(), home);
    }
}

/// With no marker file reported present, a process has no project root.
proof fn lemma_no_root_reported(p: ProcessMemory, home: Seq<char>)
    ensures
        root_reported(p, home, None),
{
    let e = Seq::<Seq<char>>::empty();
    let n = root_probes(p.cwd@, p.cmdline@, home).len();
    let none = Seq::new(n, |j: int| false);
    lemma_first_marked_none(search_dirs(p.cwd@, home));
    lemma_root_from_words_empty(crate::text::words(p.cmdline@), home);
    assert(probe_answers_shape(none, n));
    lemma_no_path_reported(root_probes(p.cwd@, p.cmdline@, home), none);
    assert(first_reported_path(root_probes(p.cwd@, p.cmdline@, home), none) == e);
    assert(project_root(p.cwd@, p.cmdline@, home, e) is None);
}

/// The roots are project roots of the processes for what their disk searches
/// reported: each the answer for some of its probed paths existing, and so
/// one of the directories searched for the process.
pub open spec fn roots_possible(
    procs: Seq<ProcessMemory>,
    home: Seq<char>,
    roots: Seq<Option<Seq<char>>>,
) -> bool {
    &&& roots.len() == procs.len()
    &&& forall|i: int|
        0 <= i < roots.len() ==> (#[trigger] roots[i] matches Some(d) ==> root_candidate(
            procs[i].cwd@,
            procs[i].cmdline@,
            home,
            d,
        ))
    &&& forall|i: int| 0 <= i < roots.len() ==> root_reported(procs[i], home, #[trigger] roots[i])
}

/// Groups processes by `mode`, largest total first, probing the disk for
/// project roots in project mode: the grouping for the roots that the disk
/// searches of the processes answered (see `roots_possible`).
pub fn group_processes(processes: &[ProcessMemory], mode: GroupMode, home: &str) -> (r: Vec<
    AppGroup,
>)
    requires
        sums_fit(processes@),
    ensures
        exists|roots: Seq<Option<Seq<char>>>|
            roots_possible(processes@, home@, roots) && grouped(processes@, mode, home@, roots, r@),
{
    let roots = if mode == GroupMode::Project {
        disk_roots(processes, home)
    } else {
        no_roots(processes.len())
    };
    let ghost rv = root_views(roots@);
    proof {
        assert forall|i: int| 0 <= i < rv.len() implies (#[trigger] rv[i] matches Some(d)
            ==> root_candidate(processes@[i].cwd@, processes@[i].cmdline@, home@, d)) by {
            assert(rv[i] == root_view(roots@[i]));
        }
        assert forall|i: int| 0 <= i < rv.len() implies root_reported(
            processes@[i],
            home@,
            #[trigger] rv[i],
        ) by {
            assert(rv[i] == root_view(roots@[i]));
            if rv[i] is None {
                lemma_no_root_reported(processes@[i], home@);
            }
        }
        assert(roots_possible(processes@, home@, rv));
    }
    let r = group_by_roots(processes, mode, home, &roots);
    assert(grouped(processes@, mode, home@, rv, r@));
    r
}

} // verus!
