//! The mod load order: reading and writing the load-order file, metadata
//! found in `.mod` files, and ordering mods by their declared dependencies.

use vstd::prelude::*;
use crate::text::{
    chars_of, find_char, first_occurrence, next_at, occurs_at, push_chars, skip_whitespace, skip_ws,
    slice_string, starts_at, string_of,
};

verus! {

/// The path with each backslash turned into a slash.
pub open spec fn slashes(p: Seq<char>) -> Seq<char> {
    Seq::new(p.len(), |i: int| if p[i] == '\\' { '/' } else { p[i] })
}

fn normalize(path: &str) -> (r: String)
    ensures
        r@ == slashes(path@),
{
    let cs = chars_of(path);
    let mut out: Vec<char> = Vec::new();
    let mut i: usize = 0;
    while i < cs.len()
        invariant
            cs@ == path@,
            i <= cs@.len(),
            out@ =~= slashes(cs@).take(i as int),
        decreases cs@.len() - i,
    {
        if cs[i] == '\\' {
            out.push('/');
        } else {
            out.push(cs[i]);
        }
        i = i + 1;
    }
    proof {
        assert(out@ =~= slashes(cs@));
    }
    string_of(out.as_slice())
}

fn same_chars(a: &[char], b: &[char]) -> (r: bool)
    ensures
        r == (a@ == b@),
{
    if a.len() != b.len() {
        return false;
    }
    let r = starts_at(a, b, 0);
    proof {
        assert(a@.subrange(0, b@.len() as int) =~= a@);
    }
    r
}

/// The suffix of a mod's metadata file.
pub open spec fn mod_suffix() -> Seq<char> {
    seq!['.', 'm', 'o', 'd']
}

/// `i` is the position of the first slash in `p`.
pub open spec fn first_slash_at(p: Seq<char>, i: int) -> bool {
    0 <= i < p.len() && p[i] == '/' && forall|j: int| 0 <= j < i ==> p[j] != '/'
}

/// A mod's name from its metadata path `dir/name.mod`: what follows the first
/// slash, less the `.mod` suffix.
pub open spec fn mod_name(p: Seq<char>) -> Option<Seq<char>> {
    if exists|i: int| first_slash_at(p, i) {
        let i = choose|i: int| first_slash_at(p, i);
        let rest = p.skip(i + 1);
        if rest.len() >= 4 && rest.skip(rest.len() - 4) == mod_suffix() {
            Some(rest.take(rest.len() - 4))
        } else {
            None
        }
    } else {
        None
    }
}

/// The quoted names of a `{ "a", "b" }` list from position `i` (past the
/// brace and blanks) to the closing brace, after those in `acc`; None when
/// the list is malformed.
pub open spec fn list_value(t: Seq<char>, i: int, acc: Seq<Seq<char>>) -> Option<Seq<Seq<char>>>
    decreases t.len() - i,
{
    if !(0 <= i <= t.len()) {
        None
    } else if i < t.len() && t[i] == '}' {
        Some(acc)
    } else if !(i < t.len() && t[i] == '"') {
        None
    } else {
        match next_at(t, '"', i + 1) {
            None => None,
            Some(j) => {
                let k = skip_ws(t, j + 1);
                let k2 = if 0 <= k < t.len() && t[k] == ',' {
                    k + 1
                } else {
                    k
                };
                let nxt = skip_ws(t, k2);
                if nxt <= i || j <= i || nxt > t.len() {
                    None
                } else {
                    list_value(t, nxt, acc.push(t.subrange(i + 1, j)))
                }
            },
        }
    }
}

/// The value `= "name"` (Ok) or `= { "a", "b" }` (Err) that follows position
/// `start` after blanks; None when neither stands there.
pub open spec fn value_at(t: Seq<char>, start: int) -> Option<Result<Seq<char>, Seq<Seq<char>>>> {
    let i = skip_ws(t, start);
    if !(0 <= i < t.len() && t[i] == '=') {
        None
    } else {
        let i2 = skip_ws(t, i + 1);
        if 0 <= i2 < t.len() && t[i2] == '"' {
            match next_at(t, '"', i2 + 1) {
                Some(j) => Some(Ok(t.subrange(i2 + 1, j))),
                None => None,
            }
        } else if 0 <= i2 < t.len() && t[i2] == '{' {
            match list_value(t, skip_ws(t, i2 + 1), Seq::empty()) {
                Some(l) => Some(Err(l)),
                None => None,
            }
        } else {
            None
        }
    }
}

/// The value after the first occurrence of `key`, at or after `offset`,
/// that is followed by one.
pub open spec fn key_value(t: Seq<char>, key: Seq<char>, offset: int) -> Option<Result<Seq<char>, Seq<Seq<char>>>>
    decreases t.len() - offset,
{
    if !(0 <= offset < t.len()) || key.len() == 0 {
        None
    } else {
        match first_occurrence(t, key, offset) {
            None => None,
            Some(a) => if a < offset || a + key.len() > t.len() {
                None
            } else {
                match value_at(t, a + key.len()) {
                    Some(r) => Some(r),
                    None => key_value(t, key, a + key.len()),
                }
            },
        }
    }
}

pub open spec fn strings_view(v: Seq<String>) -> Seq<Seq<char>> {
    v.map_values(|s: String| s@)
}

pub open spec fn value_view(r: Option<Result<String, Vec<String>>>) -> Option<Result<Seq<char>, Seq<Seq<char>>>> {
    match r {
        None => None,
        Some(Ok(s)) => Some(Ok(s@)),
        Some(Err(v)) => Some(Err(strings_view(v@))),
    }
}

/// The list declared for `key` in `t`, empty when none is.
pub open spec fn declared_list(t: Seq<char>, key: Seq<char>) -> Seq<Seq<char>> {
    match key_value(t, key, 0) {
        Some(Err(l)) => l,
        _ => Seq::empty(),
    }
}

/// What a mod's metadata file declares.
pub struct Metadata {
    path: String,
    load_before: Vec<String>,
    load_after: Vec<String>,
    require: Vec<String>,
    version: Option<String>,
}

impl Metadata {
    pub closed spec fn path_view(&self) -> Seq<char> {
        self.path@
    }

    pub closed spec fn requires_view(&self) -> Seq<Seq<char>> {
        self.require@.map_values(|s: String| s@)
    }

    pub closed spec fn load_before_view(&self) -> Seq<Seq<char>> {
        self.load_before@.map_values(|s: String| s@)
    }

    pub closed spec fn load_after_view(&self) -> Seq<Seq<char>> {
        self.load_after@.map_values(|s: String| s@)
    }

    pub closed spec fn version_view(&self) -> Option<Seq<char>> {
        match self.version {
            Some(v) => Some(v@),
            None => None,
        }
    }

    /// Metadata with no declarations, for the file at `path`.
    pub fn new(path: &str) -> (r: Metadata)
        ensures
            r.path_view() == slashes(path@),
            r.requires_view().len() == 0,
            r.load_before_view().len() == 0,
            r.load_after_view().len() == 0,
            r.version_view() is None,
    {
        Metadata {
            path: normalize(path),
            load_before: Vec::new(),
            load_after: Vec::new(),
            require: Vec::new(),
            version: None,
        }
    }

    /// Parses `= "value"` or `= { "a", "b" }` at `start`, after blanks.
    fn parse_value(text: &[char], start: usize) -> (r: Option<Result<String, Vec<String>>>)
        requires
            start <= text@.len(),
        ensures
            value_view(r) == value_at(text@, start as int),
    {
        let n = text.len();
        let mut i = skip_whitespace(text, start);
        if i >= n || text[i] != '=' {
            return None;
        }
        i = skip_whitespace(text, i + 1);
        if i < n && text[i] == '"' {
            match find_char(text, '"', i + 1) {
                Some(j) => Some(Ok(slice_string(text, i + 1, j))),
                None => None,
            }
        } else if i < n && text[i] == '{' {
            let ghost i2 = i as int;
            i = skip_whitespace(text, i + 1);
            let mut list: Vec<String> = Vec::new();
            proof {
                assert(strings_view(list@) =~= Seq::<Seq<char>>::empty());
            }
            while !(i < n && text[i] == '}')
                invariant
                    n == text@.len(),
                    i <= n,
                    list_value(text@, skip_ws(text@, i2 + 1), Seq::empty()) == list_value(
                        text@,
                        i as int,
                        strings_view(list@),
                    ),
                    value_at(text@, start as int) == match list_value(
                        text@,
                        skip_ws(text@, i2 + 1),
                        Seq::empty(),
                    ) {
                        Some(l) => Some(Err(l)),
                        None => None::<Result<Seq<char>, Seq<Seq<char>>>>,
                    },
                decreases n - i,
            {
                if !(i < n && text[i] == '"') {
                    return None;
                }
                let j = match find_char(text, '"', i + 1) {
                    Some(j) => j,
                    None => {
                        return None;
                    },
                };
                let ghost before = strings_view(list@);
                let name = slice_string(text, i + 1, j);
                let ghost name_v = name@;
                list.push(name);
                proof {
                    assert(strings_view(list@) =~= before.push(name_v));
                }
                let k = skip_whitespace(text, j + 1);
                let k2 = if k < n && text[k] == ',' { k + 1 } else { k };
                i = skip_whitespace(text, k2);
            }
            Some(Err(list))
        } else {
            None
        }
    }

    /// The value after the first occurrence of `key` that is followed by one.
    fn find_key_value(file: &[char], key: &[char]) -> (r: Option<Result<String, Vec<String>>>)
        requires
            key@.len() > 0,
        ensures
            value_view(r) == key_value(file@, key@, 0),
    {
        let n = file.len();
        let mut offset: usize = 0;
        while offset < n
            invariant
                n == file@.len(),
                key@.len() > 0,
                offset <= n,
                key_value(file@, key@, 0) == key_value(file@, key@, offset as int),
            decreases n - offset,
        {
            let mut at = offset;
            while at < n && !starts_at(file, key, at)
                invariant
                    n == file@.len(),
                    offset <= at <= n,
                    offset < n,
                    first_occurrence(file@, key@, offset as int) == first_occurrence(file@, key@, at as int),
                decreases n - at,
            {
                at = at + 1;
            }
            if at >= n {
                return None;
            }
            offset = at + key.len();
            if let Some(res) = Metadata::parse_value(file, offset) {
                return Some(res);
            }
        }
        None
    }

    /// Reads the declarations of the metadata file `file` found at `path`:
    /// the lists `load_before`, `load_after` and `require`, and `version`.
    pub fn fuzzy_parse_mod(path: &str, file: &str) -> (r: Metadata)
        ensures
            r.path_view() == slashes(path@),
            r.load_before_view() == declared_list(file@, "load_before"@),
            r.load_after_view() == declared_list(file@, "load_after"@),
            r.requires_view() == declared_list(file@, "require"@),
            r.version_view() == match key_value(file@, "version"@, 0) {
                Some(Ok(v)) => Some(v),
                _ => None,
            },
    {
        let text = chars_of(file);
        let mut load_before: Vec<String> = Vec::new();
        let mut load_after: Vec<String> = Vec::new();
        let mut require: Vec<String> = Vec::new();
        let mut version: Option<String> = None;
        let k = chars_of("load_before");
        proof {
            reveal_strlit("load_before");
        }
        if let Some(Err(list)) = Metadata::find_key_value(&text, &k) {
            load_before = list;
        }
        let k = chars_of("load_after");
        proof {
            reveal_strlit("load_after");
        }
        if let Some(Err(list)) = Metadata::find_key_value(&text, &k) {
            load_after = list;
        }
        let k = chars_of("require");
        proof {
            reveal_strlit("require");
        }
        if let Some(Err(list)) = Metadata::find_key_value(&text, &k) {
            require = list;
        }
        let k = chars_of("version");
        proof {
            reveal_strlit("version");
        }
        if let Some(Ok(value)) = Metadata::find_key_value(&text, &k) {
            version = Some(value);
        }
        let r = Metadata { path: normalize(path), load_before, load_after, require, version };
        proof {
            assert(r.load_before_view() == strings_view(r.load_before@));
            assert(r.load_after_view() == strings_view(r.load_after@));
            assert(r.requires_view() == strings_view(r.require@));
        }
        r
    }

    /// The mod's name, from a path of the form `dir/name.mod`.
    pub fn name(&self) -> (r: Option<String>)
        ensures
            r matches Some(s) ==> mod_name(self.path_view()) == Some(s@),
            r is None ==> mod_name(self.path_view()) is None,
    {
        let p = chars_of(self.path.as_str());
        let i = match find_char(&p, '/', 0) {
            Some(i) => i,
            None => {
                proof {
                    assert forall|i: int| !first_slash_at(p@, i) by {
                        if 0 <= i < p@.len() {
                            assert(p@[i] != '/');
                        }
                    }
                }
                return None;
            },
        };
        proof {
            assert(first_slash_at(p@, i as int));
            assert forall|j: int| first_slash_at(p@, j) implies j == i by {
                if j < i {
                    assert(p@[j] != '/');
                } else if j > i {
                    assert(p@[i as int] != '/');
                }
            }
        }
        let rest_len = p.len() - (i + 1);
        let suffix = chars_of(".mod");
        if rest_len >= 4 && suffix.len() == 4 && starts_at(&p, &suffix, p.len() - 4) {
            proof {
                let rest = p@.skip(i + 1);
                assert(rest.skip(rest.len() - 4) =~= p@.subrange(p@.len() - 4, p@.len() as int));
                assert(suffix@ =~= mod_suffix()) by {
                    reveal_strlit(".mod");
                }
                assert(rest.take(rest.len() - 4) =~= p@.subrange(i + 1, p@.len() - 4));
            }
            Some(slice_string(&p, i + 1, p.len() - 4))
        } else {
            proof {
                let rest = p@.skip(i + 1);
                assert(suffix@ =~= mod_suffix()) by {
                    reveal_strlit(".mod");
                }
                if rest.len() >= 4 {
                    assert(rest.skip(rest.len() - 4) =~= p@.subrange(p@.len() - 4, p@.len() as int));
                }
            }
            None
        }
    }
}

/// Whether a mod is loaded, and how it stands against the load order.
#[derive(Clone, Copy, Debug, PartialEq, Eq, Structural)]
pub enum ModState {
    Enabled,
    Disabled,
    /// Installed, but missing from the load order.
    MissingEntry,
    /// In the load order, but not installed.
    NotInstalled,
}

/// One mod of the load order.
pub struct ModEntry {
    pub meta: Metadata,
    pub state: ModState,
    name: String,
}

impl ModEntry {
    pub closed spec fn name_view(&self) -> Seq<char> {
        self.name@
    }

    pub closed spec fn path_view(&self) -> Seq<char> {
        self.meta.path@
    }

    pub closed spec fn state_view(&self) -> ModState {
        self.state
    }

    /// The names the mod requires.
    pub closed spec fn requires_view(&self) -> Seq<Seq<char>> {
        self.meta.requires_view()
    }

    pub fn name(&self) -> (r: &str)
        ensures
            r@ == self.name_view(),
    {
        self.name.as_str()
    }

    pub fn path(&self) -> (r: &str)
        ensures
            r@ == self.path_view(),
    {
        self.meta.path.as_str()
    }
}

/// The line that the load-order file holds for one mod.
pub open spec fn order_line(m: ModEntry) -> Seq<char> {
    match m.state_view() {
        ModState::Enabled => m.name_view().push('\n'),
        ModState::Disabled | ModState::NotInstalled => seq!['-', '-'] + m.name_view().push('\n'),
        ModState::MissingEntry => Seq::empty(),
    }
}

/// The lines that the load-order file holds for `ms`, in order.
pub open spec fn order_lines(ms: Seq<ModEntry>) -> Seq<char>
    decreases ms.len(),
{
    if ms.len() == 0 {
        Seq::empty()
    } else {
        order_lines(ms.drop_last()) + order_line(ms.last())
    }
}

/// Each mod is marked not installed exactly when no metadata file was found
/// for it.
pub open spec fn installed_marked(ms: Seq<ModEntry>) -> bool {
    forall|i: int|
        0 <= i < ms.len() ==> ((#[trigger] ms[i]).state_view() == ModState::NotInstalled <==> ms[i].path_view().len()
            == 0)
}

/// A mod as the load order sees it: name, state, metadata path.
pub type EntryState = (Seq<char>, ModState, Seq<char>);

pub open spec fn entry_view(m: ModEntry) -> EntryState {
    (m.name_view(), m.state_view(), m.path_view())
}

pub open spec fn mods_view(ms: Seq<ModEntry>) -> Seq<EntryState> {
    ms.map_values(|m: ModEntry| entry_view(m))
}

/// Names that the load order never lists.
pub open spec fn reserved(name: Seq<char>) -> bool {
    name == "base"@ || name == "dmf"@
}

/// Where the line that starts at `pos` ends, its line feed excluded.
pub open spec fn line_end(t: Seq<char>, pos: int) -> int {
    match next_at(t, '\n', pos) {
        Some(e) => e,
        None => t.len() as int,
    }
}

/// The line that starts at `pos`, without its line ending (`\n` or `\r\n`).
pub open spec fn line_at(t: Seq<char>, pos: int) -> Seq<char> {
    let e = line_end(t, pos);
    if e < t.len() && e > pos && t[e - 1] == '\r' {
        t.subrange(pos, e - 1)
    } else {
        t.subrange(pos, e)
    }
}

/// Where the line after the one at `pos` starts.
pub open spec fn next_line(t: Seq<char>, pos: int) -> int {
    let e = line_end(t, pos);
    if e < t.len() {
        e + 1
    } else {
        t.len() as int
    }
}

/// A comment line of the header.
pub open spec fn is_comment(line: Seq<char>) -> bool {
    line.len() >= 3 && line[0] == '-' && line[1] == '-' && line[2] == ' '
}

/// The mod a non-header line lists, with its state: disabled when the line
/// starts with `--` (the name then follows blanks), else enabled. None for
/// an empty line or a reserved name.
pub open spec fn listed(line: Seq<char>) -> Option<(Seq<char>, ModState)> {
    if line.len() == 0 {
        None
    } else {
        let (name, state) = if line.len() >= 2 && line[0] == '-' && line[1] == '-' {
            (line.skip(2).skip(skip_ws(line.skip(2), 0)), ModState::Disabled)
        } else {
            (line, ModState::Enabled)
        };
        if reserved(name) {
            None
        } else {
            Some((name, state))
        }
    }
}

/// The header and the listed mods of the load order from `pos` on.
pub open spec fn read_order(t: Seq<char>, pos: int, in_comments: bool) -> (Seq<char>, Seq<EntryState>)
    decreases t.len() - pos,
{
    if !(0 <= pos < t.len()) {
        (Seq::empty(), Seq::empty())
    } else {
        let line = line_at(t, pos);
        let nx = next_line(t, pos);
        if nx <= pos || nx > t.len() {
            (Seq::empty(), Seq::empty())
        } else if in_comments && is_comment(line) {
            let rest = read_order(t, nx, true);
            (line.push('\n') + rest.0, rest.1)
        } else {
            let rest = read_order(t, nx, false);
            match listed(line) {
                Some((name, state)) => (rest.0, seq![(name, state, Seq::<char>::empty())] + rest.1),
                None => rest,
            }
        }
    }
}

/// `k` is the first mod named `n`.
pub open spec fn first_named(ms: Seq<EntryState>, n: Seq<char>, k: int) -> bool {
    0 <= k < ms.len() && ms[k].0 == n && forall|j: int| 0 <= j < k ==> ms[j].0 != n
}

/// Merges the metadata found at path `p`: it goes to the first mod of its
/// name, or is added as missing from the load order.
pub open spec fn merge_found(ms: Seq<EntryState>, p: Seq<char>) -> Seq<EntryState> {
    match mod_name(p) {
        None => ms,
        Some(n) => if reserved(n) {
            ms
        } else if exists|k: int| first_named(ms, n, k) {
            let k = choose|k: int| first_named(ms, n, k);
            ms.update(k, (ms[k].0, ms[k].1, p))
        } else {
            ms.push((n, ModState::MissingEntry, p))
        },
    }
}

pub open spec fn merge_all(ms: Seq<EntryState>, ps: Seq<Seq<char>>) -> Seq<EntryState>
    decreases ps.len(),
{
    if ps.len() == 0 {
        ms
    } else {
        merge_all(merge_found(ms, ps[0]), ps.drop_first())
    }
}

/// Mods without metadata are not installed.
pub open spec fn mark_installed(ms: Seq<EntryState>) -> Seq<EntryState> {
    ms.map_values(|e: EntryState| (e.0, if e.2.len() == 0 { ModState::NotInstalled } else { e.1 }, e.2))
}

pub open spec fn paths_view(v: Seq<Metadata>) -> Seq<Seq<char>> {
    v.map_values(|m: Metadata| m.path_view())
}

/// The load order: the comment lines that head the file, and the mods.
pub struct ModEngine {
    pub header: String,
    pub mods: Vec<ModEntry>,
}

fn is_reserved(name: &[char]) -> (r: bool)
    ensures
        r == reserved(name@),
{
    let base = chars_of("base");
    let dmf = chars_of("dmf");
    same_chars(name, base.as_slice()) || same_chars(name, dmf.as_slice())
}

fn find_mod(mods: &Vec<ModEntry>, name: &String) -> (r: Option<usize>)
    ensures
        r matches Some(k) ==> k < mods@.len() && mods@[k as int].name_view() == name@ && forall|j: int|
            0 <= j < k ==> mods@[j].name_view() != name@,
        r is None ==> forall|k: int| 0 <= k < mods@.len() ==> mods@[k].name_view() != name@,
{
    let mut k: usize = 0;
    while k < mods.len()
        invariant
            k <= mods@.len(),
            forall|j: int| 0 <= j < k ==> mods@[j].name_view() != name@,
        decreases mods@.len() - k,
    {
        if mods[k].name == *name {
            return Some(k);
        }
        k = k + 1;
    }
    None
}

/// A name that no mod of `ms` has.
pub open spec fn unknown_name(ms: Seq<ModEntry>, r: Seq<char>) -> bool {
    forall|k: int| 0 <= k < ms.len() ==> #[trigger] ms[k].name_view() != r
}

/// A name that some mod of `ms` has.
pub open spec fn known_name(ms: Seq<ModEntry>, r: Seq<char>) -> bool {
    exists|k: int| 0 <= k < ms.len() && #[trigger] ms[k].name_view() == r
}

pub open spec fn count_true(s: Seq<bool>) -> nat
    decreases s.len(),
{
    if s.len() == 0 {
        0
    } else {
        count_true(s.drop_last()) + if s.last() {
            1nat
        } else {
            0nat
        }
    }
}

proof fn lemma_count_true_clear(s: Seq<bool>, i: int)
    requires
        0 <= i < s.len(),
        s[i],
    ensures
        count_true(s.update(i, false)) + 1 == count_true(s),
    decreases s.len(),
{
    if i < s.len() - 1 {
        lemma_count_true_clear(s.drop_last(), i);
        assert(s.update(i, false).drop_last() =~= s.drop_last().update(i, false));
    } else {
        assert(s.update(i, false).drop_last() =~= s.drop_last());
    }
}

proof fn lemma_count_true_bound(s: Seq<bool>)
    ensures
        count_true(s) <= s.len(),
    decreases s.len(),
{
    if s.len() > 0 {
        lemma_count_true_bound(s.drop_last());
    }
}

fn contains_string(v: &Vec<String>, s: &String) -> (r: bool) {
    let mut k: usize = 0;
    while k < v.len()
        invariant
            k <= v@.len(),
        decreases v@.len() - k,
    {
        if v[k] == *s {
            return true;
        }
        k = k + 1;
    }
    false
}

/// The pairs (name of `m`, requirement) for those of `reqs` that no mod of
/// `ms` is named, in order.
pub open spec fn missing_in(m: ModEntry, reqs: Seq<Seq<char>>, ms: Seq<ModEntry>) -> Seq<(Seq<char>, Seq<char>)>
    decreases reqs.len(),
{
    if reqs.len() == 0 {
        Seq::empty()
    } else {
        missing_in(m, reqs.drop_last(), ms) + if unknown_name(ms, reqs.last()) {
            seq![(m.name_view(), reqs.last())]
        } else {
            Seq::empty()
        }
    }
}

/// The missing requirements of each mod of `part`, against all mods `ms`,
/// in order.
pub open spec fn missing_of(part: Seq<ModEntry>, ms: Seq<ModEntry>) -> Seq<(Seq<char>, Seq<char>)>
    decreases part.len(),
{
    if part.len() == 0 {
        Seq::empty()
    } else {
        missing_of(part.drop_last(), ms) + missing_in(part.last(), part.last().requires_view(), ms)
    }
}

pub open spec fn missing_view(v: Seq<(String, String)>) -> Seq<(Seq<char>, Seq<char>)> {
    v.map_values(|p: (String, String)| (p.0@, p.1@))
}

/// The pairs (mod, required name) whose required name is no mod's, in order.
fn missing_requires(mods: &Vec<ModEntry>) -> (r: Vec<(String, String)>)
    ensures
        missing_view(r@) == missing_of(mods@, mods@),
{
    let mut out: Vec<(String, String)> = Vec::new();
    let mut i: usize = 0;
    while i < mods.len()
        invariant
            i <= mods@.len(),
            missing_view(out@) == missing_of(mods@.take(i as int), mods@),
        decreases mods@.len() - i,
    {
        let m = &mods[i];
        let ghost reqs = m.meta.requires_view();
        let mut j: usize = 0;
        while j < m.meta.require.len()
            invariant
                i < mods@.len(),
                m == &mods@[i as int],
                reqs == m.meta.requires_view(),
                j <= m.meta.require@.len(),
                missing_view(out@) == missing_of(mods@.take(i as int), mods@) + missing_in(
                    *m,
                    reqs.take(j as int),
                    mods@,
                ),
            decreases m.meta.require@.len() - j,
        {
            let r = &m.meta.require[j];
            let ghost before = missing_view(out@);
            proof {
                assert(reqs.take(j + 1).drop_last() =~= reqs.take(j as int));
                assert(reqs[j as int] == r@);
            }
            if find_mod(mods, r).is_none() {
                out.push((m.name.clone(), r.clone()));
                proof {
                    assert(missing_view(out@) =~= before.push((m.name_view(), r@)));
                }
            }
            proof {
                let a = missing_of(mods@.take(i as int), mods@);
                let b = missing_in(*m, reqs.take(j as int), mods@);
                if unknown_name(mods@, r@) {
                    assert(a + (b + seq![(m.name_view(), r@)]) =~= (a + b).push((m.name_view(), r@)));
                } else {
                    let k = choose|k: int| 0 <= k < mods@.len() && mods@[k].name_view() == r@;
                    assert(a + (b + Seq::empty()) =~= a + b);
                }
            }
            j = j + 1;
        }
        proof {
            assert(reqs.take(reqs.len() as int) =~= reqs);
            assert(mods@.take(i + 1).drop_last() =~= mods@.take(i as int));
            assert(mods@.take(i + 1).last() == *m);
        }
        i = i + 1;
    }
    proof {
        assert(mods@.take(mods@.len() as int) =~= mods@);
    }
    out
}

fn mod_names(mods: &Vec<ModEntry>) -> (r: Vec<Vec<char>>)
    ensures
        r@.len() == mods@.len(),
{
    let mut out: Vec<Vec<char>> = Vec::new();
    let mut i: usize = 0;
    while i < mods.len()
        invariant
            i <= mods@.len(),
            out@.len() == i,
        decreases mods@.len() - i,
    {
        out.push(chars_of(mods[i].name.as_str()));
        i = i + 1;
    }
    out
}

fn push_dep(deps: &mut Vec<Vec<usize>>, t: usize, v: usize, n: usize)
    requires
        t < old(deps)@.len(),
        v < n,
        forall|a: int| 0 <= a < old(deps)@.len() ==> (forall|b: int| 0 <= b < (#[trigger] old(deps)@[a])@.len() ==> old(deps)@[a]@[b] < n),
    ensures
        final(deps)@.len() == old(deps)@.len(),
        forall|a: int| 0 <= a < final(deps)@.len() ==> (forall|b: int| 0 <= b < (#[trigger] final(deps)@[a])@.len() ==> final(deps)@[a]@[b] < n),
{
    let mut d = deps.remove(t);
    d.push(v);
    deps.insert(t, d);
    proof {
        assert forall|a: int| 0 <= a < deps@.len() implies (forall|b: int| 0 <= b < (#[trigger] deps@[a])@.len() ==> deps@[a]@[b] < n) by {
            if a < t {
                assert(deps@[a] == old(deps)@[a]);
            } else if a > t {
                assert(deps@[a] == old(deps)@[a]);
            } else {
                assert forall|b: int| 0 <= b < deps@[a]@.len() implies deps@[a]@[b] < n by {
                    if b < deps@[a]@.len() - 1 {
                        assert(deps@[a]@[b] == old(deps)@[t as int]@[b]);
                    }
                }
            }
        }
    }
}

fn lower_code(c: char) -> (r: u32) {
    if 'A' <= c && c <= 'Z' {
        c as u32 + 32
    } else {
        c as u32
    }
}

/// Compares names ASCII case-insensitively over their common length; a name
/// that is a prefix of the other compares equal to it.
fn name_cmp(a: &Vec<char>, b: &Vec<char>) -> (r: std::cmp::Ordering) {
    let mut i: usize = 0;
    while i < a.len() && i < b.len()
        invariant
            i <= a@.len(),
        decreases a@.len() - i,
    {
        let x = lower_code(a[i]);
        let y = lower_code(b[i]);
        if x < y {
            return std::cmp::Ordering::Less;
        } else if x > y {
            return std::cmp::Ordering::Greater;
        }
        i = i + 1;
    }
    std::cmp::Ordering::Equal
}

fn round_less(x: (u64, usize), y: (u64, usize), names: &Vec<Vec<char>>) -> (r: bool)
    requires
        x.1 < names@.len(),
        y.1 < names@.len(),
{
    x.0 < y.0 || (x.0 == y.0 && matches!(name_cmp(&names[x.1], &names[y.1]), std::cmp::Ordering::Less))
}

pub open spec fn indices(v: Seq<(u64, usize)>) -> Seq<int> {
    v.map_values(|p: (u64, usize)| p.1 as int)
}

/// Sorts placements by round, then by name, keeping the given order among
/// equals.
fn sort_rounds(order: &Vec<(u64, usize)>, names: &Vec<Vec<char>>) -> (r: Vec<(u64, usize)>)
    requires
        forall|a: int| 0 <= a < order@.len() ==> (#[trigger] order@[a]).1 < names@.len(),
    ensures
        r@.len() == order@.len(),
        forall|a: int| 0 <= a < r@.len() ==> (#[trigger] r@[a]).1 < names@.len(),
        indices(r@).to_multiset() == indices(order@).to_multiset(),
{
    broadcast use vstd::seq_lib::group_to_multiset_ensures;

    let mut out: Vec<(u64, usize)> = Vec::new();
    let mut i: usize = 0;
    while i < order.len()
        invariant
            i <= order@.len(),
            out@.len() == i,
            forall|a: int| 0 <= a < order@.len() ==> (#[trigger] order@[a]).1 < names@.len(),
            forall|a: int| 0 <= a < out@.len() ==> (#[trigger] out@[a]).1 < names@.len(),
            indices(out@).to_multiset() == indices(order@.take(i as int)).to_multiset(),
        decreases order@.len() - i,
    {
        let x = order[i];
        let mut pos = out.len();
        while pos > 0 && round_less(x, out[pos - 1], names)
            invariant
                pos <= out@.len(),
                x.1 < names@.len(),
                forall|a: int| 0 <= a < out@.len() ==> (#[trigger] out@[a]).1 < names@.len(),
            decreases pos,
        {
            pos = pos - 1;
        }
        let ghost prev = out@;
        out.insert(pos, x);
        proof {
            prev.insert_ensures(pos as int, x);
            assert forall|a: int| 0 <= a < out@.len() implies (#[trigger] out@[a]).1 < names@.len() by {
                if a > pos {
                    assert(out@[a] == prev[a - 1]);
                } else if a < pos {
                    assert(out@[a] == prev[a]);
                }
            }
            let ip = indices(prev);
            let e = x.1 as int;
            assert(indices(out@) =~= ip.subrange(0, pos as int).push(e) + ip.subrange(pos as int, ip.len() as int));
            vstd::seq_lib::lemma_multiset_commutative(ip.subrange(0, pos as int).push(e), ip.subrange(pos as int, ip.len() as int));
            vstd::seq_lib::lemma_multiset_commutative(ip.subrange(0, pos as int), ip.subrange(pos as int, ip.len() as int));
            assert(ip =~= ip.subrange(0, pos as int) + ip.subrange(pos as int, ip.len() as int));
            assert(indices(order@.take(i + 1)) =~= indices(order@.take(i as int)).push(e));
            ip.subrange(0, pos as int).to_multiset_ensures();
            indices(order@.take(i as int)).to_multiset_ensures();
            assert(ip.subrange(0, pos as int).push(e).to_multiset() =~= ip.subrange(0, pos as int).to_multiset().insert(e));
            assert(indices(order@.take(i as int)).push(e).to_multiset() =~= indices(order@.take(i as int)).to_multiset().insert(e));
            assert(indices(out@).to_multiset() =~= indices(order@.take(i + 1)).to_multiset());
        }
        i = i + 1;
    }
    proof {
        assert(order@.take(order@.len() as int) =~= order@);
    }
    out
}

impl ModEngine {
    pub fn new() -> (r: ModEngine)
        ensures
            r.header@.len() == 0,
            r.mods@.len() == 0,
    {
        ModEngine { header: String::new(), mods: Vec::new() }
    }

    /// Reads the load order `load_order` and merges in the metadata `found`
    /// of the installed mods. Leading lines that start with `-- ` form the
    /// header; other lines name a mod, disabled when they start with `--`.
    /// `base` and `dmf` are skipped. An installed mod missing from the load
    /// order is added as such; a listed mod with no metadata is marked not
    /// installed.
    pub fn load(&mut self, load_order: &str, found: Vec<Metadata>)
        ensures
            final(self).header@ == read_order(load_order@, 0, true).0,
            mods_view(final(self).mods@) == mark_installed(
                merge_all(read_order(load_order@, 0, true).1, paths_view(found@)),
            ),
            installed_marked(final(self).mods@),
    {
        self.header = String::new();
        self.mods = Vec::new();
        let text = chars_of(load_order);
        let ghost t = text@;
        let n = text.len();
        let mut in_comments = true;
        let mut pos: usize = 0;
        proof {
            assert(mods_view(self.mods@) =~= Seq::<EntryState>::empty());
            assert(self.header@ + read_order(t, 0, true).0 =~= read_order(t, 0, true).0);
            assert(mods_view(self.mods@) + read_order(t, 0, true).1 =~= read_order(t, 0, true).1);
        }
        while pos < n
            invariant
                n == text@.len(),
                t == text@,
                t == load_order@,
                pos <= n,
                self.header@ + read_order(t, pos as int, in_comments).0 == read_order(t, 0, true).0,
                mods_view(self.mods@) + read_order(t, pos as int, in_comments).1 == read_order(t, 0, true).1,
                forall|i: int| 0 <= i < self.mods@.len() ==> (#[trigger] self.mods@[i]).path_view().len() == 0,
                forall|i: int| 0 <= i < self.mods@.len() ==> (#[trigger] self.mods@[i]).state_view() != ModState::NotInstalled,
            decreases n - pos,
        {
            let ghost p0 = pos as int;
            let ghost h0 = self.header@;
            let ghost m0 = mods_view(self.mods@);
            let ghost inc = in_comments;
            let end = match find_char(&text, '\n', pos) {
                Some(e) => e,
                None => n,
            };
            let mut line_end = end;
            if end < n && line_end > pos && text[line_end - 1] == '\r' {
                line_end = line_end - 1;
            }
            let line = &text[pos..line_end];
            let next = if end < n { end + 1 } else { n };
            proof {
                assert(line@ == line_at(t, p0));
                assert(next as int == next_line(t, p0));
            }
            pos = next;
            if in_comments && line.len() >= 3 && line[0] == '-' && line[1] == '-' && line[2] == ' ' {
                push_chars(&mut self.header, line);
                push_chars(&mut self.header, &['\n']);
                proof {
                    let rest = read_order(t, next as int, true);
                    assert(self.header@ =~= h0 + line@.push('\n'));
                    assert(h0 + (line@.push('\n') + rest.0) =~= self.header@ + rest.0);
                }
                continue;
            } else {
                in_comments = false;
            }
            if line.len() == 0 {
                continue;
            }
            let mut state = ModState::Enabled;
            let mut name: &[char] = line;
            if line.len() >= 2 && line[0] == '-' && line[1] == '-' {
                state = ModState::Disabled;
                let rest = &line[2..line.len()];
                let s = skip_whitespace(rest, 0);
                name = &rest[s..rest.len()];
                proof {
                    assert(rest@ =~= line@.skip(2));
                    assert(name@ =~= line@.skip(2).skip(s as int));
                }
            }
            if is_reserved(name) {
                continue;
            }
            let entry = ModEntry { meta: Metadata::new(""), state, name: string_of(name) };
            proof {
                reveal_strlit("");
                assert(slashes(""@) =~= Seq::<char>::empty());
                assert(entry_view(entry) == (name@, state, Seq::<char>::empty()));
            }
            self.mods.push(entry);
            proof {
                let rest = read_order(t, next as int, false);
                assert(mods_view(self.mods@) =~= m0.push(entry_view(entry)));
                assert(m0 + (seq![(name@, state, Seq::<char>::empty())] + rest.1) =~= mods_view(self.mods@) + rest.1);
            }
        }
        proof {
            assert(self.header@ + Seq::<char>::empty() =~= self.header@);
            assert(mods_view(self.mods@) + Seq::<EntryState>::empty() =~= mods_view(self.mods@));
        }
        let ghost listed_mods = mods_view(self.mods@);
        let ghost fp = paths_view(found@);
        let mut pending = found;
        let ghost mut k_done: int = 0;
        proof {
            assert(fp.skip(0) =~= fp);
        }
        while pending.len() > 0
            invariant
                0 <= k_done <= fp.len(),
                paths_view(pending@) == fp.skip(k_done),
                fp == paths_view(found@),
                listed_mods == read_order(load_order@, 0, true).1,
                self.header@ == read_order(load_order@, 0, true).0,
                merge_all(mods_view(self.mods@), fp.skip(k_done)) == merge_all(listed_mods, fp),
                forall|i: int| 0 <= i < self.mods@.len() ==> (#[trigger] self.mods@[i]).state_view() != ModState::NotInstalled,
            decreases pending@.len(),
        {
            let ghost before = pending@;
            let ghost ms0 = mods_view(self.mods@);
            let meta = pending.remove(0);
            proof {
                assert(paths_view(before)[0] == meta.path_view());
                assert forall|i: int| 0 <= i < pending@.len() implies pending@[i] == before[i + 1] by {}
                assert(paths_view(pending@) =~= paths_view(before).drop_first());
                assert(paths_view(pending@) =~= fp.skip(k_done + 1));
                assert(fp.skip(k_done).drop_first() =~= fp.skip(k_done + 1));
                assert(fp.skip(k_done)[0] == meta.path_view());
                k_done = k_done + 1;
            }
            let ghost p = meta.path_view();
            let name = match meta.name() {
                Some(name) => name,
                None => {
                    continue;
                },
            };
            let name_chars = chars_of(name.as_str());
            if is_reserved(&name_chars) {
                continue;
            }
            match find_mod(&self.mods, &name) {
                Some(k) => {
                    let mut e = self.mods.remove(k);
                    e.meta = meta;
                    self.mods.insert(k, e);
                    proof {
                        assert(first_named(ms0, name@, k as int));
                        assert forall|j: int| first_named(ms0, name@, j) implies j == k by {
                            if j < k {
                                assert(ms0[j].0 != name@);
                            } else if j > k {
                                assert(ms0[k as int].0 == name@);
                            }
                        }
                        assert(mods_view(self.mods@) =~= ms0.update(k as int, (ms0[k as int].0, ms0[k as int].1, p)));
                    }
                },
                None => {
                    let entry = ModEntry { state: ModState::MissingEntry, name, meta };
                    self.mods.push(entry);
                    proof {
                        assert(!exists|j: int| first_named(ms0, name@, j));
                        assert(mods_view(self.mods@) =~= ms0.push((name@, ModState::MissingEntry, p)));
                    }
                },
            }
        }
        proof {
            assert(fp.skip(k_done).len() == 0);
        }
        let ghost merged = mods_view(self.mods@);
        proof {
            assert(merged == merge_all(read_order(load_order@, 0, true).1, paths_view(found@)));
        }
        proof {
            assert forall|i: int| 0 <= i < merged.len() implies merged[i].1 != ModState::NotInstalled by {
                assert(merged[i] == entry_view(self.mods@[i]));
            }
        }
        let mut k: usize = 0;
        while k < self.mods.len()
            invariant
                k <= self.mods@.len(),
                merged == merge_all(read_order(load_order@, 0, true).1, paths_view(found@)),
                self.header@ == read_order(load_order@, 0, true).0,
                merged.len() == self.mods@.len(),
                forall|i: int| 0 <= i < merged.len() ==> (#[trigger] merged[i]).1 != ModState::NotInstalled,
                forall|i: int| k <= i < self.mods@.len() ==> #[trigger] mods_view(self.mods@)[i] == merged[i],
                forall|i: int| 0 <= i < k ==> #[trigger] mods_view(self.mods@)[i] == mark_installed(merged)[i],
            decreases self.mods@.len() - k,
        {
            let ghost ms0 = mods_view(self.mods@);
            if self.mods[k].meta.path.as_str().is_empty() {
                let mut e = self.mods.remove(k);
                e.state = ModState::NotInstalled;
                self.mods.insert(k, e);
                proof {
                    assert(mods_view(self.mods@) =~= ms0.update(k as int, (ms0[k as int].0, ModState::NotInstalled, ms0[k as int].2)));
                }
            }
            k = k + 1;
        }
        proof {
            assert(mods_view(self.mods@) =~= mark_installed(merged));
            assert forall|i: int| 0 <= i < self.mods@.len() implies ((#[trigger] self.mods@[i]).state_view() == ModState::NotInstalled
                <==> self.mods@[i].path_view().len() == 0) by {
                assert(mods_view(self.mods@)[i] == entry_view(self.mods@[i]));
                assert(merged[i].1 != ModState::NotInstalled);
            }
        }
    }

    /// Orders the mods so that each loads after what it declares to load
    /// after or to require, and before what it declares to load before; mods
    /// that declare nothing and that nothing names come last. Within a round
    /// of the ordering, names compare ASCII case-insensitively. Gives the
    /// pairs (mod, required name) whose required mod is not listed, or None,
    /// leaving the mods as they were, when the declarations form a cycle.
    pub fn sort(&mut self) -> (r: Option<Vec<(String, String)>>)
        ensures
            r is None ==> final(self).mods@ == old(self).mods@,
            r matches Some(missing) ==> missing_view(missing@) == missing_of(old(self).mods@, old(self).mods@),
            r is Some ==> exists|p: Seq<int>|
                {
                    &&& p.len() == old(self).mods@.len()
                    &&& final(self).mods@.len() == p.len()
                    &&& forall|i: int| 0 <= i < p.len() ==> 0 <= #[trigger] p[i] < p.len()
                    &&& p.no_duplicates()
                    &&& forall|i: int| 0 <= i < p.len() ==> final(self).mods@[i] == old(self).mods@[#[trigger] p[i]]
                },
    {
        let n = self.mods.len();
        let missing = missing_requires(&self.mods);
        let mut deps: Vec<Vec<usize>> = Vec::new();
        let mut used: Vec<bool> = Vec::new();
        let mut k: usize = 0;
        while k < n
            invariant
                n == self.mods@.len(),
                k <= n,
                deps@.len() == k,
                used@.len() == k,
                forall|i: int| 0 <= i < k ==> (forall|j: int| 0 <= j < (#[trigger] deps@[i])@.len() ==> deps@[i]@[j] < n),
            decreases n - k,
        {
            deps.push(Vec::new());
            used.push(false);
            k = k + 1;
        }
        let mut i: usize = 0;
        while i < n
            invariant
                n == self.mods@.len(),
                i <= n,
                deps@.len() == n,
                used@.len() == n,
                forall|a: int| 0 <= a < n ==> (forall|j: int| 0 <= j < (#[trigger] deps@[a])@.len() ==> deps@[a]@[j] < n),
            decreases n - i,
        {
            let meta = &self.mods[i].meta;
            if meta.load_before.len() == 0 && meta.load_after.len() == 0 && meta.require.len() == 0 {
                i = i + 1;
                continue;
            }
            used[i] = true;
            let mut j: usize = 0;
            while j < meta.load_before.len()
                invariant
                    n == self.mods@.len(),
                    i < n,
                    deps@.len() == n,
                    used@.len() == n,
                    forall|a: int| 0 <= a < n ==> (forall|b: int| 0 <= b < (#[trigger] deps@[a])@.len() ==> deps@[a]@[b] < n),
                decreases meta.load_before@.len() - j,
            {
                if let Some(t) = find_mod(&self.mods, &meta.load_before[j]) {
                    used[t] = true;
                    push_dep(&mut deps, t, i, n);
                }
                j = j + 1;
            }
            let mut j: usize = 0;
            while j < meta.load_after.len()
                invariant
                    n == self.mods@.len(),
                    i < n,
                    deps@.len() == n,
                    used@.len() == n,
                    forall|a: int| 0 <= a < n ==> (forall|b: int| 0 <= b < (#[trigger] deps@[a])@.len() ==> deps@[a]@[b] < n),
                decreases meta.load_after@.len() - j,
            {
                if let Some(t) = find_mod(&self.mods, &meta.load_after[j]) {
                    used[t] = true;
                    push_dep(&mut deps, i, t, n);
                }
                j = j + 1;
            }
            let mut j: usize = 0;
            while j < meta.require.len()
                invariant
                    n == self.mods@.len(),
                    i < n,
                    deps@.len() == n,
                    used@.len() == n,
                    forall|a: int| 0 <= a < n ==> (forall|b: int| 0 <= b < (#[trigger] deps@[a])@.len() ==> deps@[a]@[b] < n),
                decreases meta.require@.len() - j,
            {
                let r = &meta.require[j];
                if !contains_string(&meta.load_before, r) {
                    if let Some(t) = find_mod(&self.mods, r) {
                        used[t] = true;
                        push_dep(&mut deps, i, t, n);
                    }
                }
                j = j + 1;
            }
            i = i + 1;
        }
        // Resolve in rounds: a mod is placed once everything it depends on has
        // been placed in an earlier round.
        let mut pending: Vec<bool> = Vec::new();
        let mut placed: Vec<bool> = Vec::new();
        let mut order: Vec<(u64, usize)> = Vec::new();
        let mut i: usize = 0;
        while i < n
            invariant
                n == self.mods@.len(),
                i <= n,
                used@.len() == n,
                pending@.len() == i,
                placed@.len() == i,
                deps@.len() == n,
                forall|a: int| 0 <= a < n ==> (forall|b: int| 0 <= b < (#[trigger] deps@[a])@.len() ==> deps@[a]@[b] < n),
                forall|a: int| 0 <= a < order@.len() ==> (#[trigger] order@[a]).1 < n,
                forall|a: int| 0 <= a < i ==> (#[trigger] pending@[a] ==> !placed@[a]),
                order@.len() + count_true(pending@) == i,
                indices(order@).no_duplicates(),
                forall|a: int| 0 <= a < order@.len() ==> (#[trigger] order@[a]).1 < i && !pending@[order@[a].1 as int],
            decreases n - i,
        {
            let u = used[i];
            let ghost p0 = pending@;
            pending.push(u);
            placed.push(!u);
            proof {
                assert(pending@.drop_last() =~= p0);
            }
            if !u {
                let ghost o0 = order@;
                order.push((u64::MAX, i));
                proof {
                    assert(indices(order@) =~= indices(o0).push(i as int));
                }
            }
            i = i + 1;
        }
        let mut round: u64 = 0;
        loop
            invariant
                n == self.mods@.len(),
                deps@.len() == n,
                pending@.len() == n,
                placed@.len() == n,
                round as int <= order@.len(),
                forall|a: int| 0 <= a < n ==> (forall|b: int| 0 <= b < (#[trigger] deps@[a])@.len() ==> deps@[a]@[b] < n),
                forall|a: int| 0 <= a < order@.len() ==> (#[trigger] order@[a]).1 < n,
                forall|a: int| 0 <= a < n ==> (#[trigger] pending@[a] ==> !placed@[a]),
                order@.len() + count_true(pending@) == n,
                indices(order@).no_duplicates(),
                forall|a: int| 0 <= a < order@.len() ==> !pending@[(#[trigger] order@[a]).1 as int],
            decreases count_true(pending@),
        {
            let offset = order.len();
            let mut newly: Vec<usize> = Vec::new();
            let mut i: usize = 0;
            while i < n
                invariant
                    n == self.mods@.len(),
                    deps@.len() == n,
                    pending@.len() == n,
                    placed@.len() == n,
                    i <= n,
                    round as int <= offset,
                    offset <= order@.len(),
                    forall|a: int| 0 <= a < newly@.len() ==> !pending@[#[trigger] newly@[a] as int],
                    order@.len() - offset == newly@.len(),
                    forall|a: int| 0 <= a < n ==> (forall|b: int| 0 <= b < (#[trigger] deps@[a])@.len() ==> deps@[a]@[b] < n),
                    forall|a: int| 0 <= a < order@.len() ==> (#[trigger] order@[a]).1 < n,
                    forall|a: int| 0 <= a < newly@.len() ==> (#[trigger] newly@[a]) < n,
                    forall|a: int| 0 <= a < n ==> (#[trigger] pending@[a] ==> !placed@[a]),
                    order@.len() + count_true(pending@) == n,
                    indices(order@).no_duplicates(),
                    forall|a: int| 0 <= a < order@.len() ==> !pending@[(#[trigger] order@[a]).1 as int],
                decreases n - i,
            {
                if pending[i] {
                    let d = &deps[i];
                    let mut ready = true;
                    let mut j: usize = 0;
                    while j < d.len()
                        invariant
                            placed@.len() == n,
                            j <= d@.len(),
                            forall|b: int| 0 <= b < d@.len() ==> d@[b] < n,
                        decreases d@.len() - j,
                    {
                        if !placed[d[j]] {
                            ready = false;
                            break;
                        }
                        j = j + 1;
                    }
                    if ready {
                        proof {
                            lemma_count_true_clear(pending@, i as int);
                        }
                        let ghost o0 = order@;
                        let ghost pend0 = pending@;
                        order.push((round, i));
                        pending[i] = false;
                        newly.push(i);
                        proof {
                            assert(indices(order@) =~= indices(o0).push(i as int));
                            assert forall|a: int| 0 <= a < o0.len() implies indices(o0)[a] != i as int by {
                                assert(!pend0[o0[a].1 as int]);
                            }
                            assert forall|a: int| 0 <= a < order@.len() implies !pending@[(#[trigger] order@[a]).1 as int] by {
                                if a < o0.len() {
                                    assert(order@[a] == o0[a]);
                                    assert(!pend0[o0[a].1 as int]);
                                }
                            }
                        }
                    }
                }
                i = i + 1;
            }
            let mut j: usize = 0;
            while j < newly.len()
                invariant
                    placed@.len() == n,
                    pending@.len() == n,
                    j <= newly@.len(),
                    forall|a: int| 0 <= a < newly@.len() ==> (#[trigger] newly@[a]) < n,
                    forall|a: int| 0 <= a < newly@.len() ==> !pending@[#[trigger] newly@[a] as int],
                    forall|a: int| 0 <= a < n ==> (#[trigger] pending@[a] ==> !placed@[a]),
                decreases newly@.len() - j,
            {
                let t = newly[j];
                placed[t] = true;
                j = j + 1;
            }
            if order.len() == offset {
                break;
            }
            round = round + 1;
        }
        if order.len() != n {
            return None;
        }
        let names = mod_names(&self.mods);
        let ghost placed_order = order@;
        let order = sort_rounds(&order, &names);
        let ghost p = indices(order@);
        proof {
            indices(placed_order).lemma_multiset_has_no_duplicates();
            p.lemma_multiset_has_no_duplicates_conv();
        }
        let mut rest: Vec<ModEntry> = Vec::new();
        std::mem::swap(&mut rest, &mut self.mods);
        let ghost old_mods = rest@;
        let mut slots: Vec<Option<ModEntry>> = Vec::new();
        while rest.len() > 0
            invariant
                slots@.len() + rest@.len() == old_mods.len(),
                rest@ == old_mods.skip(slots@.len() as int),
                forall|b: int| 0 <= b < slots@.len() ==> #[trigger] slots@[b] == Some(old_mods[b]),
            decreases rest@.len(),
        {
            let ghost r0 = rest@;
            let e = rest.remove(0);
            slots.push(Some(e));
            proof {
                assert(rest@ =~= old_mods.skip(slots@.len() as int));
            }
        }
        let mut a: usize = 0;
        while a < order.len()
            invariant
                a <= order@.len(),
                n == old_mods.len(),
                order@.len() == n,
                slots@.len() == n,
                p == indices(order@),
                p.no_duplicates(),
                forall|b: int| 0 <= b < order@.len() ==> (#[trigger] order@[b]).1 < n,
                self.mods@.len() == a,
                forall|b: int| 0 <= b < a ==> #[trigger] self.mods@[b] == old_mods[p[b]],
                forall|x: int|
                    0 <= x < n ==> (#[trigger] slots@[x] == if exists|b: int| 0 <= b < a && p[b] == x {
                        None
                    } else {
                        Some(old_mods[x])
                    }),
            decreases order@.len() - a,
        {
            let idx = order[a].1;
            let mut taken: Option<ModEntry> = None;
            proof {
                assert(p[a as int] == idx as int);
                assert(!exists|b: int| 0 <= b < a && p[b] == idx as int) by {
                    if exists|b: int| 0 <= b < a && p[b] == idx as int {
                        let b = choose|b: int| 0 <= b < a && p[b] == idx as int;
                        assert(p[b] == p[a as int]);
                    }
                }
            }
            let ghost s0 = slots@;
            std::mem::swap(&mut taken, &mut slots[idx]);
            match taken {
                Some(e) => {
                    self.mods.push(e);
                },
                None => {},
            }
            proof {
                assert(s0[idx as int] == Some(old_mods[idx as int]));
                assert forall|x: int| 0 <= x < n implies (#[trigger] slots@[x] == if exists|b: int| 0 <= b < a + 1 && p[b] == x {
                    None
                } else {
                    Some(old_mods[x])
                }) by {
                    if x == idx as int {
                        assert(p[a as int] == x);
                    } else {
                        assert(slots@[x] == s0[x]);
                        if exists|b: int| 0 <= b < a + 1 && p[b] == x {
                            let b = choose|b: int| 0 <= b < a + 1 && p[b] == x;
                            assert(b < a);
                        }
                    }
                }
            }
            a = a + 1;
        }
        proof {
            assert forall|b: int| 0 <= b < p.len() implies 0 <= #[trigger] p[b] < old_mods.len() by {
                assert(order@[b].1 < n);
            }
        }
        Some(missing)
    }

    /// Writes the load order: the header, then a line per mod, prefixed with
    /// `--` when disabled or not installed; mods missing from the load order
    /// are left out.
    pub fn generate(&self, out: &mut String)
        ensures
            final(out)@ == old(out)@ + self.header@ + order_lines(self.mods@),
    {
        let h = chars_of(self.header.as_str());
        push_chars(out, h.as_slice());
        let ghost start = out@;
        let mut i: usize = 0;
        while i < self.mods.len()
            invariant
                i <= self.mods@.len(),
                start == old(out)@ + self.header@,
                out@ == start + order_lines(self.mods@.take(i as int)),
            decreases self.mods@.len() - i,
        {
            let m = &self.mods[i];
            let ghost before = out@;
            let name = chars_of(m.name.as_str());
            match m.state {
                ModState::Enabled => {
                    push_chars(out, name.as_slice());
                    push_chars(out, &['\n']);
                },
                ModState::Disabled | ModState::NotInstalled => {
                    push_chars(out, &['-', '-']);
                    push_chars(out, name.as_slice());
                    push_chars(out, &['\n']);
                },
                ModState::MissingEntry => {},
            }
            proof {
                assert(self.mods@.take(i + 1).drop_last() =~= self.mods@.take(i as int));
                assert(out@ =~= before + order_line(self.mods@[i as int]));
            }
            i = i + 1;
        }
        proof {
            assert(self.mods@.take(self.mods@.len() as int) =~= self.mods@);
        }
    }
}

} // verus!
